//! A client that observes groups without being a member, and its
//! configuration.
use vstd::prelude::*;

use crate::cipher_suite::CipherSuite;
use crate::extension::{CredentialType, ExtensionType};
use crate::codec::{Codec, MAX_VARINT};
use crate::extension::IdentityProvider;
use crate::proposal::{KeyPackage, LeafNode, LeafNodeSource, ProposalType, SigningIdentity};
use crate::wire::CipherSuiteProvider;

verus! {

/// The one protocol version, MLS 1.0.
pub const MLS_10: u16 = 1;

/// Credential type of basic credentials.
pub const BASIC_CREDENTIAL_TYPE: CredentialType = 1;

/// Basic credentials: an identity given as plain bytes.
pub struct BasicCredential;

impl BasicCredential {
    pub fn credential_type() -> (r: CredentialType)
        ensures
            r == BASIC_CREDENTIAL_TYPE,
    {
        BASIC_CREDENTIAL_TYPE
    }
}

/// What a client supports.
#[derive(Clone, Debug, PartialEq, Eq)]
pub struct Capabilities {
    pub protocol_versions: Vec<u16>,
    pub cipher_suites: Vec<CipherSuite>,
    pub extensions: Vec<ExtensionType>,
    pub proposals: Vec<ProposalType>,
    pub credentials: Vec<CredentialType>,
}

fn copy_u16s(s: &[u16]) -> (r: Vec<u16>)
    ensures
        r@ == s@,
{
    let mut r: Vec<u16> = Vec::new();
    let mut i: usize = 0;
    while i < s.len()
        invariant
            i <= s@.len(),
            r@ == s@.take(i as int),
        decreases s@.len() - i,
    {
        r.push(s[i]);
        assert(s@.take(i + 1) =~= s@.take(i as int).push(s@[i as int]));
        i = i + 1;
    }
    assert(s@.take(i as int) =~= s@);
    r
}

fn copy_suites(s: &[CipherSuite]) -> (r: Vec<CipherSuite>)
    ensures
        r@ == s@,
{
    let mut r: Vec<CipherSuite> = Vec::new();
    let mut i: usize = 0;
    while i < s.len()
        invariant
            i <= s@.len(),
            r@ == s@.take(i as int),
        decreases s@.len() - i,
    {
        r.push(s[i]);
        assert(s@.take(i + 1) =~= s@.take(i as int).push(s@[i as int]));
        i = i + 1;
    }
    assert(s@.take(i as int) =~= s@);
    r
}

/// Index of the first pair whose key is `id`, or `s.len()` if none.
pub open spec fn key_index(s: Seq<(Vec<u8>, Vec<u8>)>, id: Seq<u8>) -> int
    decreases s.len(),
{
    if s.len() == 0 {
        0
    } else if s[0].0@ == id {
        0
    } else {
        1 + key_index(s.drop_first(), id)
    }
}

proof fn lemma_key_index(s: Seq<(Vec<u8>, Vec<u8>)>, id: Seq<u8>)
    ensures
        0 <= key_index(s, id) <= s.len(),
        key_index(s, id) < s.len() ==> s[key_index(s, id)].0@ == id,
        forall|j: int| 0 <= j < key_index(s, id) ==> #[trigger] s[j].0@ != id,
    decreases s.len(),
{
    if s.len() > 0 && s[0].0@ != id {
        lemma_key_index(s.drop_first(), id);
        assert forall|j: int| 0 <= j < key_index(s, id) implies #[trigger] s[j].0@ != id by {
            if j > 0 {
                assert(s[j] == s.drop_first()[j - 1]);
            }
        }
    }
}

fn find_key(keys: &Vec<(Vec<u8>, Vec<u8>)>, id: &[u8]) -> (r: usize)
    ensures
        r == key_index(keys@, id@),
{
    proof {
        lemma_key_index(keys@, id@);
    }
    let mut i: usize = 0;
    while i < keys.len()
        invariant
            i <= keys@.len(),
            forall|j: int| 0 <= j < i ==> #[trigger] keys@[j].0@ != id@,
            0 <= key_index(keys@, id@) <= keys@.len(),
            key_index(keys@, id@) < keys@.len() ==> keys@[key_index(keys@, id@)].0@ == id@,
            forall|j: int| 0 <= j < key_index(keys@, id@) ==> #[trigger] keys@[j].0@ != id@,
        decreases keys@.len() - i,
    {
        if crate::rules::bytes_equal(keys[i].0.as_slice(), id) {
            return i;
        }
        i = i + 1;
    }
    i
}

/// No key identifier occurs twice in `s`.
pub open spec fn keys_unique(s: Seq<(Vec<u8>, Vec<u8>)>) -> bool {
    forall|i: int, j: int| 0 <= i < j < s.len() ==> #[trigger] s[i].0@ != #[trigger] s[j].0@
}

/// Configuration of an external client, kept in memory.
#[derive(Clone, Debug)]
pub struct InMemoryExternalClientConfig {
    pub supported_extensions: Vec<ExtensionType>,
    pub signing_identities: Vec<(SigningIdentity, Vec<u8>)>,
    pub protocol_versions: Vec<u16>,
    pub cipher_suites: Vec<CipherSuite>,
    /// External signing keys by key identifier; each identifier at most once.
    pub external_signing_keys: Vec<(Vec<u8>, Vec<u8>)>,
    pub max_epoch_jitter: Option<u64>,
    pub credentials: Vec<CredentialType>,
}

impl InMemoryExternalClientConfig {
    /// The protocol version and every standard cipher suite, basic
    /// credentials, and nothing else.
    pub open spec fn is_initial(self) -> bool {
        &&& self.protocol_versions@ == seq![MLS_10]
        &&& self.cipher_suites@.len() == 7
        &&& forall|i: int| 0 <= i < 7 ==> #[trigger] self.cipher_suites@[i].0 == i + 1
        &&& self.supported_extensions@.len() == 0
        &&& self.signing_identities@.len() == 0
        &&& self.external_signing_keys@.len() == 0
        &&& keys_unique(self.external_signing_keys@)
        &&& self.max_epoch_jitter.is_none()
        &&& self.credentials@ == seq![BASIC_CREDENTIAL_TYPE]
    }

    pub fn new() -> (r: Self)
        ensures
            r.is_initial(),
    {
        let mut protocol_versions: Vec<u16> = Vec::new();
        protocol_versions.push(MLS_10);
        let mut credentials: Vec<CredentialType> = Vec::new();
        credentials.push(BASIC_CREDENTIAL_TYPE);
        let r = InMemoryExternalClientConfig {
            supported_extensions: Vec::new(),
            signing_identities: Vec::new(),
            protocol_versions,
            cipher_suites: CipherSuite::all(),
            external_signing_keys: Vec::new(),
            max_epoch_jitter: None,
            credentials,
        };
        assert(r.protocol_versions@ =~= seq![MLS_10]);
        assert(r.credentials@ =~= seq![BASIC_CREDENTIAL_TYPE]);
        r
    }

    pub fn with_supported_extension(self, extension: ExtensionType) -> (r: Self)
        ensures
            r == (Self { supported_extensions: r.supported_extensions, ..self }),
            r.supported_extensions@ == self.supported_extensions@.push(extension),
    {
        let mut s = self;
        s.supported_extensions.push(extension);
        s
    }

    pub fn with_signing_identity(self, signing_identity: SigningIdentity, secret_key: Vec<u8>) -> (r: Self)
        ensures
            r == (Self { signing_identities: r.signing_identities, ..self }),
            r.signing_identities@ == self.signing_identities@.push((signing_identity, secret_key)),
    {
        let mut s = self;
        s.signing_identities.push((signing_identity, secret_key));
        s
    }

    pub fn with_protocol_version(self, version: u16) -> (r: Self)
        ensures
            r == (Self { protocol_versions: r.protocol_versions, ..self }),
            r.protocol_versions@ == self.protocol_versions@.push(version),
    {
        let mut s = self;
        s.protocol_versions.push(version);
        s
    }

    pub fn clear_protocol_versions(self) -> (r: Self)
        ensures
            r == (Self { protocol_versions: r.protocol_versions, ..self }),
            r.protocol_versions@.len() == 0,
    {
        let mut s = self;
        s.protocol_versions = Vec::new();
        s
    }

    pub fn with_cipher_suite(self, cipher_suite: CipherSuite) -> (r: Self)
        ensures
            r == (Self { cipher_suites: r.cipher_suites, ..self }),
            r.cipher_suites@ == self.cipher_suites@.push(cipher_suite),
    {
        let mut s = self;
        s.cipher_suites.push(cipher_suite);
        s
    }

    pub fn clear_cipher_suites(self) -> (r: Self)
        ensures
            r == (Self { cipher_suites: r.cipher_suites, ..self }),
            r.cipher_suites@.len() == 0,
    {
        let mut s = self;
        s.cipher_suites = Vec::new();
        s
    }

    /// Register `key` under `id`, replacing a key already registered there.
    pub fn with_external_signing_key(self, id: Vec<u8>, key: Vec<u8>) -> (r: Self)
        ensures
            r == (Self { external_signing_keys: r.external_signing_keys, ..self }),
            ({
                let i = key_index(self.external_signing_keys@, id@);
                if i < self.external_signing_keys@.len() {
                    r.external_signing_keys@ == self.external_signing_keys@.update(i, (id, key))
                } else {
                    r.external_signing_keys@ == self.external_signing_keys@.push((id, key))
                }
            }),
            keys_unique(self.external_signing_keys@) ==> keys_unique(r.external_signing_keys@),
    {
        proof {
            lemma_key_index(self.external_signing_keys@, id@);
        }
        let mut s = self;
        let i = find_key(&s.external_signing_keys, id.as_slice());
        if i < s.external_signing_keys.len() {
            s.external_signing_keys.set(i, (id, key));
        } else {
            s.external_signing_keys.push((id, key));
        }
        s
    }

    pub fn with_max_epoch_jitter(self, max_jitter: u64) -> (r: Self)
        ensures
            r == (Self { max_epoch_jitter: Some(max_jitter), ..self }),
    {
        Self { max_epoch_jitter: Some(max_jitter), ..self }
    }

    /// A client with this configuration and no signing identity of its own.
    pub fn build_client(self) -> (r: ExternalClient)
        ensures
            r.config == self,
            r.signing_data.is_none(),
    {
        ExternalClient::new(self, None)
    }

    pub fn supported_cipher_suites(&self) -> (r: &[CipherSuite])
        ensures
            r@ == self.cipher_suites@,
    {
        self.cipher_suites.as_slice()
    }

    pub fn supported_extensions(&self) -> (r: &[ExtensionType])
        ensures
            r@ == self.supported_extensions@,
    {
        self.supported_extensions.as_slice()
    }

    pub fn supported_protocol_versions(&self) -> (r: &[u16])
        ensures
            r@ == self.protocol_versions@,
    {
        self.protocol_versions.as_slice()
    }

    pub fn supported_credentials(&self) -> (r: &[CredentialType])
        ensures
            r@ == self.credentials@,
    {
        self.credentials.as_slice()
    }

    pub fn max_epoch_jitter(&self) -> (r: Option<u64>)
        ensures
            r == self.max_epoch_jitter,
    {
        self.max_epoch_jitter
    }

    /// The external signing key registered under `id`.
    pub fn external_signing_key(&self, id: &[u8]) -> (r: Option<&Vec<u8>>)
        ensures
            ({
                let i = key_index(self.external_signing_keys@, id@);
                if i < self.external_signing_keys@.len() {
                    r == Some(&self.external_signing_keys@[i].1)
                } else {
                    r.is_none()
                }
            }),
    {
        let i = find_key(&self.external_signing_keys, id);
        if i < self.external_signing_keys.len() {
            Some(&self.external_signing_keys[i].1)
        } else {
            None
        }
    }

    pub fn version_supported(&self, version: u16) -> (r: bool)
        ensures
            r == self.protocol_versions@.contains(version),
    {
        let mut i: usize = 0;
        while i < self.protocol_versions.len()
            invariant
                i <= self.protocol_versions@.len(),
                forall|j: int| 0 <= j < i ==> self.protocol_versions@[j] != version,
            decreases self.protocol_versions@.len() - i,
        {
            if self.protocol_versions[i] == version {
                return true;
            }
            i = i + 1;
        }
        false
    }

    pub fn cipher_suite_supported(&self, cipher_suite: CipherSuite) -> (r: bool)
        ensures
            r == self.cipher_suites@.contains(cipher_suite),
    {
        let mut i: usize = 0;
        while i < self.cipher_suites.len()
            invariant
                i <= self.cipher_suites@.len(),
                forall|j: int| 0 <= j < i ==> self.cipher_suites@[j] != cipher_suite,
            decreases self.cipher_suites@.len() - i,
        {
            if self.cipher_suites[i] == cipher_suite {
                return true;
            }
            i = i + 1;
        }
        false
    }

    /// What this client supports; it registers no custom proposal types.
    pub fn capabilities(&self) -> (r: Capabilities)
        ensures
            r.protocol_versions@ == self.protocol_versions@,
            r.cipher_suites@ == self.cipher_suites@,
            r.extensions@ == self.supported_extensions@,
            r.proposals@.len() == 0,
            r.credentials@ == self.credentials@,
    {
        Capabilities {
            protocol_versions: copy_u16s(self.protocol_versions.as_slice()),
            cipher_suites: copy_suites(self.cipher_suites.as_slice()),
            extensions: copy_u16s(self.supported_extensions.as_slice()),
            proposals: Vec::new(),
            credentials: copy_u16s(self.credentials.as_slice()),
        }
    }
}

/// Errors of the external client.
#[derive(Debug, Clone, Copy, PartialEq, Eq, Structural)]
pub enum MlsError {
    UnsupportedCipherSuite(CipherSuite),
    InvalidLeafNodeSource,
    /// The leaf's signature does not verify under its signature key.
    InvalidSignature,
    /// The key package is not valid at the given time.
    InvalidLifetime,
    /// The identity provider refused the leaf's identity.
    IdentityRejected,
    /// The key package is for another protocol version.
    ProtocolVersionMismatch,
    /// The key package is for another cipher suite.
    CipherSuiteMismatch,
}

/// A key package that passed validation.
#[derive(Debug, Clone, Copy, PartialEq, Eq, Structural)]
pub struct KeyPackageValidationOutput {
    /// End of the key package's validity, in seconds since the Unix epoch.
    pub expiration_timestamp: u64,
}

/// A client able to observe a group's state without the private keys
/// needed to read its content.
pub struct ExternalClient {
    pub config: InMemoryExternalClientConfig,
    pub signing_data: Option<(Vec<u8>, SigningIdentity)>,
}

/// The signed part of a leaf: everything but its signature.
pub open spec fn leaf_tbs(l: LeafNode) -> (Vec<u8>, (SigningIdentity, LeafNodeSource)) {
    (l.public_key, (l.signing_identity, l.leaf_node_source))
}

/// The leaf's signature verifies under the leaf's own signature key.
pub open spec fn leaf_signature_valid<P: CipherSuiteProvider>(crypto: &P, l: LeafNode) -> bool {
    leaf_tbs(l).encodable()
        && crypto.spec_verify(l.signing_identity.signature_key@, leaf_tbs(l).enc(), l.signature@)
}

/// The outcome of validating key package `kp` for `protocol` and
/// `cipher_suite` at time `now`: the suite must be supported, the leaf must
/// come from a key package, the leaf's signature must verify, the key
/// package must be valid at `now`, its identity must be accepted, and
/// version and suite must match.
pub open spec fn key_package_result<P: CipherSuiteProvider, I: IdentityProvider>(
    config: InMemoryExternalClientConfig,
    crypto: &P,
    identities: &I,
    kp: KeyPackage,
    protocol: u16,
    cipher_suite: CipherSuite,
    now: u64,
) -> Result<KeyPackageValidationOutput, MlsError> {
    if !config.cipher_suites@.contains(cipher_suite) {
        Err(MlsError::UnsupportedCipherSuite(cipher_suite))
    } else {
        match kp.leaf_node.leaf_node_source {
            LeafNodeSource::KeyPackage(l) => if !leaf_signature_valid(crypto, kp.leaf_node) {
                Err(MlsError::InvalidSignature)
            } else if now < l.not_before || now > l.not_after {
                Err(MlsError::InvalidLifetime)
            } else if !identities.spec_valid(kp.leaf_node.signing_identity, Some(now)) {
                Err(MlsError::IdentityRejected)
            } else if kp.version != protocol {
                Err(MlsError::ProtocolVersionMismatch)
            } else if kp.cipher_suite != cipher_suite {
                Err(MlsError::CipherSuiteMismatch)
            } else {
                Ok(KeyPackageValidationOutput { expiration_timestamp: l.not_after })
            },
            _ => Err(MlsError::InvalidLeafNodeSource),
        }
    }
}

fn bytes_encodable(v: &Vec<u8>) -> (r: bool)
    ensures
        r == v.encodable(),
{
    proof {
        crate::wire::lemma_bytes_enc(v@);
    }
    v.len() as u64 <= MAX_VARINT
}

/// The encoded signed part of `l`, if it fits the encoding's limits.
fn leaf_tbs_bytes(l: &LeafNode) -> (r: Option<Vec<u8>>)
    ensures
        match r {
            Some(b) => leaf_tbs(*l).encodable() && b@ == leaf_tbs(*l).enc(),
            None => !leaf_tbs(*l).encodable(),
        },
{
    let source_ok = match &l.leaf_node_source {
        LeafNodeSource::Commit(h) => bytes_encodable(h),
        _ => true,
    };
    if !(bytes_encodable(&l.public_key) && bytes_encodable(&l.signing_identity.signature_key)
        && bytes_encodable(&l.signing_identity.credential_data) && source_ok) {
        return None;
    }
    let mut out: Vec<u8> = Vec::new();
    l.public_key.encode(&mut out);
    l.signing_identity.encode(&mut out);
    l.leaf_node_source.encode(&mut out);
    assert(out@ =~= leaf_tbs(*l).enc());
    Some(out)
}

impl ExternalClient {
    /// A configuration to build a client from.
    pub fn builder() -> (r: InMemoryExternalClientConfig)
        ensures
            r.is_initial(),
    {
        InMemoryExternalClientConfig::new()
    }

    pub fn new(config: InMemoryExternalClientConfig, signing_data: Option<(Vec<u8>, SigningIdentity)>) -> (r: Self)
        ensures
            r.config == config,
            r.signing_data == signing_data,
    {
        ExternalClient { config, signing_data }
    }

    /// Validate a key package at time `now`: the suite is supported, its
    /// leaf comes from a key package, the leaf's signature verifies with
    /// `crypto`, its lifetime covers `now`, `identities` accepts its
    /// identity, and version and suite match; on success, report when it
    /// expires.
    pub fn validate_key_package<P: CipherSuiteProvider, I: IdentityProvider>(
        &self,
        crypto: &P,
        identities: &I,
        key_package: &KeyPackage,
        protocol: u16,
        cipher_suite: CipherSuite,
        now: u64,
    ) -> (r: Result<KeyPackageValidationOutput, MlsError>)
        ensures
            r == key_package_result(self.config, crypto, identities, *key_package, protocol, cipher_suite, now),
    {
        if !self.config.cipher_suite_supported(cipher_suite) {
            return Err(MlsError::UnsupportedCipherSuite(cipher_suite));
        }
        let leaf = &key_package.leaf_node;
        let lifetime = match &leaf.leaf_node_source {
            LeafNodeSource::KeyPackage(l) => *l,
            _ => {
                return Err(MlsError::InvalidLeafNodeSource);
            },
        };
        let signed = match leaf_tbs_bytes(leaf) {
            Some(b) => crypto.verify(
                leaf.signing_identity.signature_key.as_slice(),
                b.as_slice(),
                leaf.signature.as_slice(),
            ),
            None => false,
        };
        if !signed {
            return Err(MlsError::InvalidSignature);
        }
        if now < lifetime.not_before || now > lifetime.not_after {
            return Err(MlsError::InvalidLifetime);
        }
        if identities.validate(&leaf.signing_identity, Some(now)).is_err() {
            return Err(MlsError::IdentityRejected);
        }
        if key_package.version != protocol {
            return Err(MlsError::ProtocolVersionMismatch);
        }
        if key_package.cipher_suite != cipher_suite {
            return Err(MlsError::CipherSuiteMismatch);
        }
        Ok(KeyPackageValidationOutput { expiration_timestamp: lifetime.not_after })
    }
}

} // verus!
