use mls_core::keys::{derive_epoch, derive_keys};
use mls_core::wire::CipherSuiteProvider;

/// A stand-in suite whose derivations are plain concatenations, so that
/// the inputs of each derivation can be read back from its output.
struct Concat;

impl CipherSuiteProvider for Concat {
    type Error = String;

    fn hash(&self, data: &[u8]) -> Result<Vec<u8>, String> {
        Ok(data.to_vec())
    }

    fn verify(&self, public_key: &[u8], data: &[u8], signature: &[u8]) -> bool {
        signature == [public_key, data].concat().as_slice()
    }

    fn hash_len(&self) -> usize {
        48
    }

    fn kdf_extract(&self, salt: &[u8], ikm: &[u8]) -> Result<Vec<u8>, String> {
        Ok([b"X(", salt, b",", ikm, b")"].concat())
    }

    fn kdf_expand(&self, secret: &[u8], label: &str, context: &[u8], len: usize) -> Result<Vec<u8>, String> {
        let mut out = [b"E(", secret, b",", label.as_bytes(), b",", context, b")"].concat();
        out.truncate(len.max(out.len()));
        Ok(out)
    }
}

struct Broken;

impl CipherSuiteProvider for Broken {
    type Error = String;

    fn hash(&self, _data: &[u8]) -> Result<Vec<u8>, String> {
        Err("no hash".to_string())
    }

    fn verify(&self, public_key: &[u8], data: &[u8], signature: &[u8]) -> bool {
        signature == [public_key, data].concat().as_slice()
    }

    fn hash_len(&self) -> usize {
        32
    }

    fn kdf_extract(&self, _salt: &[u8], _ikm: &[u8]) -> Result<Vec<u8>, String> {
        Err("extract failed".to_string())
    }

    fn kdf_expand(&self, _secret: &[u8], _label: &str, _context: &[u8], _len: usize) -> Result<Vec<u8>, String> {
        Err("expand failed".to_string())
    }
}

#[test]
fn key_schedule_uses_the_labels() {
    let s = match derive_epoch(&Concat, b"i", b"c", b"p", b"g") {
        Ok(s) => s,
        Err(e) => panic!("{e}"),
    };
    assert_eq!(s.joiner_secret, b"X(i,c)".to_vec());
    assert_eq!(s.welcome_secret, b"E(X(i,c),welcome,)".to_vec());
    assert_eq!(s.epoch_secret, b"E(X(X(i,c),p),epoch,g)".to_vec());
    assert_eq!(s.keys.encryption_secret, b"E(E(X(X(i,c),p),epoch,g),encryption,)".to_vec());
    assert_eq!(s.keys.init_secret, b"E(E(X(X(i,c),p),epoch,g),init,)".to_vec());
    assert_eq!(s.keys.sender_data_secret, b"E(E(X(X(i,c),p),epoch,g),sender data,)".to_vec());
}

#[test]
fn next_epoch_keys_need_only_the_epoch_secret() {
    let s = match derive_epoch(&Concat, b"old-init", b"c", b"p", b"g") {
        Ok(s) => s,
        Err(e) => panic!("{e}"),
    };
    let again = match derive_keys(&Concat, &s.epoch_secret) {
        Ok(k) => k,
        Err(e) => panic!("{e}"),
    };
    assert_eq!(again.encryption_secret, s.keys.encryption_secret);
    assert_eq!(again.membership_key, s.keys.membership_key);
}

#[test]
fn members_with_the_same_inputs_agree() {
    let a = derive_epoch(&Concat, b"i", b"c", b"p", b"g").ok().unwrap();
    let b = derive_epoch(&Concat, b"i", b"c", b"p", b"g").ok().unwrap();
    assert_eq!(a.epoch_secret, b.epoch_secret);
    let next_a = derive_epoch(&Concat, &a.keys.init_secret, b"c2", b"", b"g2").ok().unwrap();
    let next_b = derive_epoch(&Concat, &b.keys.init_secret, b"c2", b"", b"g2").ok().unwrap();
    assert_eq!(next_a.epoch_secret, next_b.epoch_secret);
}

#[test]
fn provider_failure_is_reported() {
    assert_eq!(derive_epoch(&Broken, b"i", b"c", b"p", b"g").err(), Some("extract failed".to_string()));
}
