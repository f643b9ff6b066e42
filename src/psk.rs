//! Pre-shared keys and their identifiers.
use vstd::prelude::*;

use zeroize::Zeroizing;

verus! {

/// Secret bytes, held in a zeroize::Zeroizing buffer that overwrites them
/// with zeros when dropped.
#[verifier::external_body]
pub struct SecretBytes {
    data: Zeroizing<Vec<u8>>,
}

/// The bytes held by a secret buffer.
pub uninterp spec fn secret_bytes(z: SecretBytes) -> Seq<u8>;

/// Relies on zeroize::Zeroizing::new: the wrapper holds the given vector
/// (and overwrites it with zeros when dropped).
#[verifier::external_body]
fn protect(data: Vec<u8>) -> (r: SecretBytes)
    ensures
        secret_bytes(r) == data@,
{
    SecretBytes { data: Zeroizing::new(data) }
}

/// Relies on the `Deref` impl of zeroize::Zeroizing: it yields the wrapped
/// vector.
#[verifier::external_body]
fn exposed(z: &SecretBytes) -> (r: &[u8])
    ensures
        r@ == secret_bytes(*z),
{
    z.data.as_slice()
}

/// A pre-shared key value, overwritten with zeros when dropped.
pub struct PreSharedKey {
    data: SecretBytes,
}

impl PreSharedKey {
    /// The key's bytes.
    pub closed spec fn spec_bytes(&self) -> Seq<u8> {
        secret_bytes(self.data)
    }

    pub fn new(data: Vec<u8>) -> (r: PreSharedKey)
        ensures
            r.spec_bytes() == data@,
    {
        PreSharedKey { data: protect(data) }
    }

    /// Raw byte value.
    pub fn raw_value(&self) -> (r: &[u8])
        ensures
            r@ == self.spec_bytes(),
    {
        exposed(&self.data)
    }
}

/// Identifier of an external pre-shared key.
#[derive(Clone, Debug, PartialEq, Eq, Hash, PartialOrd, Ord)]
pub struct ExternalPskId(pub Vec<u8>);

impl ExternalPskId {
    pub fn new(id_data: Vec<u8>) -> (r: ExternalPskId)
        ensures
            r.0@ == id_data@,
    {
        ExternalPskId(id_data)
    }

    pub fn as_bytes(&self) -> (r: &[u8])
        ensures
            r@ == self.0@,
    {
        self.0.as_slice()
    }
}

/// Storage of pre-shared key values, supplied by the application.
pub trait PreSharedKeyStorage {
    type Error;

    /// The key named `id`, or `None` if there is none.
    fn get(&self, id: &ExternalPskId) -> Result<Option<PreSharedKey>, Self::Error>;

    /// Whether a key named `id` is stored.
    fn contains(&self, id: &ExternalPskId) -> (r: Result<bool, Self::Error>) {
        match self.get(id) {
            Ok(key) => Ok(key.is_some()),
            Err(e) => Err(e),
        }
    }
}

} // verus!
