use mls_core::client::BasicCredential;
use mls_core::codec::Codec;
use mls_core::extension::{
    ApplicationIdExt, Extension, ExtensionError, ExtensionList, ExtensionType, ExternalPubExt,
    ExternalSendersExt, MlsExtension, RatchetTreeExt, RequiredCapabilitiesExt,
    APPLICATION_ID_EXT_ID, RATCHET_TREE_EXT_ID, REQUIRED_CAPABILITIES_EXT_ID,
};
use mls_core::node::{Node, ParentNode};
use mls_core::proposal::SigningIdentity;

fn test_signing_identity() -> SigningIdentity {
    SigningIdentity {
        signature_key: vec![1, 2, 3, 4],
        credential_type: BasicCredential::credential_type(),
        credential_data: b"alice".to_vec(),
    }
}

#[test]
fn test_key_id_extension() {
    let test_id = vec![0u8; 32];
    let test_extension = ApplicationIdExt {
        identifier: test_id.clone(),
    };

    let as_extension = test_extension.into_extension().unwrap();

    assert_eq!(as_extension.extension_type, APPLICATION_ID_EXT_ID.into());

    let restored = ApplicationIdExt::from_extension(&as_extension).unwrap();
    assert_eq!(restored.identifier, test_id);
}

#[test]
fn test_ratchet_tree() {
    let ext = RatchetTreeExt {
        tree_data: vec![None, None],
    };

    let as_extension = ext.clone().into_extension().unwrap();
    assert_eq!(as_extension.extension_type, RATCHET_TREE_EXT_ID.into());

    let restored = RatchetTreeExt::from_extension(&as_extension).unwrap();
    assert_eq!(ext, restored)
}

#[test]
fn test_required_capabilities() {
    let ext = RequiredCapabilitiesExt {
        extensions: vec![0u16.into(), 1u16.into()],
        proposals: vec![42u16.into(), 43u16.into()],
        credentials: vec![BasicCredential::credential_type()],
    };

    let as_extension = ext.clone().into_extension().unwrap();

    assert_eq!(
        as_extension.extension_type,
        REQUIRED_CAPABILITIES_EXT_ID.into()
    );

    let restored = RequiredCapabilitiesExt::from_extension(&as_extension).unwrap();
    assert_eq!(ext, restored)
}

#[test]
fn test_bad_deserialize_data() {
    let bad_data = vec![255u8; 32];

    let test_extension = Extension::new(APPLICATION_ID_EXT_ID.into(), bad_data);

    let capabilities: Result<ApplicationIdExt, ExtensionError> =
        ApplicationIdExt::from_extension(&test_extension);

    assert!(capabilities.is_err());
}

#[test]
fn test_bad_deserialize_type() {
    let test_extension = Extension::new(RATCHET_TREE_EXT_ID.into(), vec![0u8; 32]);

    assert!(ApplicationIdExt::from_extension(&test_extension).is_err());
}

#[test]
fn test_extension_list_get_set() {
    let mut list = ExtensionList::new();

    let required_capabilities = RequiredCapabilitiesExt::default();

    let ext_senders = ExternalSendersExt {
        allowed_senders: vec![],
    };

    // Add the extensions to the list
    list.set_from(required_capabilities.clone()).unwrap();
    list.set_from(ext_senders.clone()).unwrap();

    assert_eq!(list.len(), 2);

    assert_eq!(
        list.get_as::<RequiredCapabilitiesExt>().unwrap(),
        Some(required_capabilities)
    );

    assert_eq!(
        list.get_as::<ExternalSendersExt>().unwrap(),
        Some(ext_senders)
    );

    assert_eq!(list.get_as::<ExternalPubExt>().unwrap(), None);

    // Overwrite the extension in the list
    let ext_senders = ExternalSendersExt {
        allowed_senders: vec![test_signing_identity()],
    };

    list.set_from(ext_senders.clone()).unwrap();
    assert_eq!(list.len(), 2);

    assert_eq!(
        list.get_as::<ExternalSendersExt>().unwrap(),
        Some(ext_senders.clone())
    );

    assert_eq!(
        list.get_as::<ExternalSendersExt>().unwrap(),
        Some(ext_senders)
    );

    assert_eq!(list.get_as::<ExternalPubExt>().unwrap(), None);
}

#[test]
fn test_extension_list_has_ext() {
    let mut list = ExtensionList::new();

    let lifetime = ApplicationIdExt {
        identifier: (0u8..32).collect(),
    };

    list.set_from(lifetime).unwrap();

    assert!(list.has_extension(APPLICATION_ID_EXT_ID.into()));
    assert!(!list.has_extension(42u16.into()));
}

#[test]
fn extension_list_is_serialized_like_a_sequence_of_extensions() {
    let extension_vec = vec![
        RequiredCapabilitiesExt::default().into_extension().unwrap(),
        ExternalSendersExt {
            allowed_senders: vec![],
        }
        .into_extension()
        .unwrap(),
    ];

    let extension_list = ExtensionList {
        extensions: extension_vec.clone(),
    };

    let mut sequence = Vec::new();
    extension_vec.encode(&mut sequence);

    assert_eq!(sequence, extension_list.to_bytes());
}

#[test]
fn deserializing_extension_list_fails_on_duplicate_extension() {
    let extensions = vec![
        RequiredCapabilitiesExt::default().into_extension().unwrap(),
        RequiredCapabilitiesExt::default().into_extension().unwrap(),
    ];

    let mut serialized_extensions = Vec::new();
    extensions.encode(&mut serialized_extensions);

    assert!(matches!(
        ExtensionList::from_bytes(&serialized_extensions),
        Err(ExtensionError::DuplicateExtension(t)) if t == REQUIRED_CAPABILITIES_EXT_ID
    ));
}

#[test]
fn extension_list_round_trips_through_bytes() {
    let mut list = ExtensionList::new();
    list.set_from(ExternalPubExt { external_pub: vec![9; 40] }).unwrap();
    list.set_from(ApplicationIdExt { identifier: vec![1, 2] }).unwrap();
    let bytes = list.to_bytes();
    assert_eq!(ExtensionList::from_bytes(&bytes).unwrap(), list);
}

#[test]
fn application_id_is_a_length_prefixed_vector() {
    let ext = ApplicationIdExt { identifier: vec![0xaa, 0xbb, 0xcc] }.into_extension().unwrap();
    assert_eq!(ext.extension_data, vec![3, 0xaa, 0xbb, 0xcc]);
}

#[test]
fn required_capabilities_encoding() {
    let ext = RequiredCapabilitiesExt {
        extensions: vec![1, 0x0203],
        proposals: vec![],
        credentials: vec![1],
    }
    .into_extension()
    .unwrap();
    assert_eq!(ext.extension_data, vec![4, 0, 1, 2, 3, 0, 2, 0, 1]);
}

#[test]
fn trailing_bytes_are_refused() {
    let ext = Extension::new(APPLICATION_ID_EXT_ID, vec![1, 7, 0]);
    assert_eq!(
        ApplicationIdExt::from_extension(&ext),
        Err(ExtensionError::DeserializationError)
    );
}

#[test]
fn wrong_type_reports_both_types() {
    let ext = Extension::new(RATCHET_TREE_EXT_ID, vec![0]);
    assert_eq!(
        ApplicationIdExt::from_extension(&ext),
        Err(ExtensionError::IncorrectType { expected: APPLICATION_ID_EXT_ID, found: RATCHET_TREE_EXT_ID })
    );
}

#[test]
fn ratchet_tree_with_nodes_round_trips() {
    let ext = RatchetTreeExt {
        tree_data: vec![
            None,
            Some(Node::Parent(ParentNode {
                public_key: vec![5; 32],
                parent_hash: vec![],
                unmerged_leaves: vec![2, 70000],
            })),
        ],
    };
    let as_extension = ext.clone().into_extension().unwrap();
    assert_eq!(RatchetTreeExt::from_extension(&as_extension).unwrap(), ext);
}

#[test]
fn external_senders_round_trip() {
    let ext = ExternalSendersExt::new(vec![test_signing_identity(), test_signing_identity()]);
    let as_extension = ext.clone().into_extension().unwrap();
    assert_eq!(ExternalSendersExt::from_extension(&as_extension).unwrap(), ext);
}

#[test]
fn extension_type_constants() {
    let t: ExtensionType = ExternalPubExt::extension_type();
    assert_eq!(t, 4);
}

struct AllowOnly(Vec<u8>);

impl mls_core::extension::IdentityProvider for AllowOnly {
    type Error = Vec<u8>;

    fn validate(&self, identity: &SigningIdentity, _timestamp: Option<u64>) -> Result<(), Vec<u8>> {
        if identity.credential_data == self.0 {
            Ok(())
        } else {
            Err(identity.credential_data.clone())
        }
    }
}

#[test]
fn verify_all_stops_at_first_refused_sender() {
    let mut other = test_signing_identity();
    other.credential_data = b"mallory".to_vec();
    let ext = ExternalSendersExt::new(vec![test_signing_identity(), other.clone(), other]);
    assert_eq!(ext.verify_all(&AllowOnly(b"alice".to_vec()), None), Err(b"mallory".to_vec()));
    assert_eq!(ExternalSendersExt::new(vec![test_signing_identity()]).verify_all(&AllowOnly(b"alice".to_vec()), Some(5)), Ok(()));
}
