use vstd::prelude::*;

verus! {

/// Number of cipher suites defined by the MLS standard (identifiers `1..=7`).
pub const DEFAULT_CIPHER_SUITE_COUNT: u16 = 7;

/// A 16-bit cipher suite identifier.
///
/// | ID | KEM         | AEAD             | Hash    | Signature |
/// |----|-------------|------------------|---------|-----------|
/// | 1  | DHKEMX25519 | AES 128          | SHA 256 | Ed25519   |
/// | 2  | DHKEMP256   | AES 128          | SHA 256 | P256      |
/// | 3  | DHKEMX25519 | ChaCha20Poly1305 | SHA 256 | Ed25519   |
/// | 4  | DHKEMX448   | AES 256          | SHA 512 | Ed448     |
/// | 5  | DHKEMP521   | AES 256          | SHA 512 | P521      |
/// | 6  | DHKEMX448   | ChaCha20Poly1305 | SHA 512 | Ed448     |
/// | 7  | DHKEMP384   | AES 256          | SHA 512 | P384      |
///
/// Other values are custom suites, usable when a crypto provider knows them.
#[derive(Debug, Clone, Copy, PartialEq, Eq, Structural, PartialOrd, Ord, Hash)]
pub struct CipherSuite(pub u16);

impl CipherSuite {
    /// Whether this identifier is one of the standard suites.
    pub open spec fn is_standard_spec(self) -> bool {
        1 <= self.0 <= DEFAULT_CIPHER_SUITE_COUNT
    }

    /// Cipher suite from a raw value.
    pub fn new(value: u16) -> (r: CipherSuite)
        ensures
            r.0 == value,
    {
        CipherSuite(value)
    }

    /// Raw numerical value.
    pub fn raw_value(&self) -> (r: u16)
        ensures
            r == self.0,
    {
        self.0
    }

    /// Whether this identifier is one of the standard suites.
    pub fn is_standard(&self) -> (r: bool)
        ensures
            r == self.is_standard_spec(),
    {
        1 <= self.0 && self.0 <= DEFAULT_CIPHER_SUITE_COUNT
    }

    /// All of the standard cipher suites, in increasing order.
    pub fn all() -> (r: Vec<CipherSuite>)
        ensures
            r@.len() == DEFAULT_CIPHER_SUITE_COUNT,
            forall|i: int| 0 <= i < r@.len() ==> r@[i].0 == i + 1,
    {
        let mut r: Vec<CipherSuite> = Vec::new();
        let mut v: u16 = 1;
        while v <= DEFAULT_CIPHER_SUITE_COUNT
            invariant
                1 <= v <= DEFAULT_CIPHER_SUITE_COUNT + 1,
                r@.len() == v - 1,
                forall|i: int| 0 <= i < r@.len() ==> r@[i].0 == i + 1,
            decreases DEFAULT_CIPHER_SUITE_COUNT + 1 - v,
        {
            r.push(CipherSuite(v));
            v = v + 1;
        }
        r
    }
}

} // verus!
