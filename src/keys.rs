//! The epoch key schedule: the secrets of a new epoch from the previous
//! init secret, the commit secret and the pre-shared key secret. The
//! derivations themselves are the cipher suite provider's.
use vstd::prelude::*;

use crate::wire::CipherSuiteProvider;

verus! {

/// The secrets derived from an epoch secret.
pub struct EpochKeys {
    pub sender_data_secret: Vec<u8>,
    pub encryption_secret: Vec<u8>,
    pub exporter_secret: Vec<u8>,
    pub external_secret: Vec<u8>,
    pub confirmation_key: Vec<u8>,
    pub membership_key: Vec<u8>,
    pub resumption_psk: Vec<u8>,
    pub init_secret: Vec<u8>,
}

/// The secrets of a new epoch.
pub struct EpochSecrets {
    pub joiner_secret: Vec<u8>,
    pub welcome_secret: Vec<u8>,
    pub epoch_secret: Vec<u8>,
    pub keys: EpochKeys,
}

/// `k` holds the keys that `p` derives from `epoch_secret` alone, each
/// `Expand(epoch_secret, label, "", hash length)`.
pub open spec fn keys_of<P: CipherSuiteProvider>(p: &P, epoch_secret: Seq<u8>, k: EpochKeys) -> bool {
    let nh = p.spec_hash_len();
    &&& k.sender_data_secret@ == p.spec_expand(epoch_secret, "sender data"@, Seq::empty(), nh)
    &&& k.encryption_secret@ == p.spec_expand(epoch_secret, "encryption"@, Seq::empty(), nh)
    &&& k.exporter_secret@ == p.spec_expand(epoch_secret, "exporter"@, Seq::empty(), nh)
    &&& k.external_secret@ == p.spec_expand(epoch_secret, "external"@, Seq::empty(), nh)
    &&& k.confirmation_key@ == p.spec_expand(epoch_secret, "confirm"@, Seq::empty(), nh)
    &&& k.membership_key@ == p.spec_expand(epoch_secret, "membership"@, Seq::empty(), nh)
    &&& k.resumption_psk@ == p.spec_expand(epoch_secret, "resumption"@, Seq::empty(), nh)
    &&& k.init_secret@ == p.spec_expand(epoch_secret, "init"@, Seq::empty(), nh)
}

/// The epoch secret that `p` derives from a joiner secret, the pre-shared
/// key secret and the group context.
pub open spec fn epoch_secret_of<P: CipherSuiteProvider>(p: &P, joiner: Seq<u8>, psk_secret: Seq<u8>, group_context: Seq<u8>) -> Seq<u8> {
    p.spec_expand(p.spec_extract(joiner, psk_secret), "epoch"@, group_context, p.spec_hash_len())
}

/// Derive the keys of an epoch from its epoch secret alone, each as
/// `Expand(epoch_secret, label, hash length)`; nothing of the previous
/// epoch is needed. The first provider failure is returned.
pub fn derive_keys<P: CipherSuiteProvider>(p: &P, epoch_secret: &[u8]) -> (r: Result<EpochKeys, P::Error>)
    ensures
        r matches Ok(k) ==> keys_of(p, epoch_secret@, k),
{
    let nh = p.hash_len();
    let empty: Vec<u8> = Vec::new();
    let sender_data_secret = p.kdf_expand(epoch_secret, "sender data", empty.as_slice(), nh)?;
    let encryption_secret = p.kdf_expand(epoch_secret, "encryption", empty.as_slice(), nh)?;
    let exporter_secret = p.kdf_expand(epoch_secret, "exporter", empty.as_slice(), nh)?;
    let external_secret = p.kdf_expand(epoch_secret, "external", empty.as_slice(), nh)?;
    let confirmation_key = p.kdf_expand(epoch_secret, "confirm", empty.as_slice(), nh)?;
    let membership_key = p.kdf_expand(epoch_secret, "membership", empty.as_slice(), nh)?;
    let resumption_psk = p.kdf_expand(epoch_secret, "resumption", empty.as_slice(), nh)?;
    let init_secret = p.kdf_expand(epoch_secret, "init", empty.as_slice(), nh)?;
    assert(empty@ =~= Seq::<u8>::empty());
    Ok(EpochKeys {
        sender_data_secret,
        encryption_secret,
        exporter_secret,
        external_secret,
        confirmation_key,
        membership_key,
        resumption_psk,
        init_secret,
    })
}

/// Advance the key schedule: the joiner secret is
/// `Extract(init_secret, commit_secret)`, the welcome secret
/// `Expand(joiner, "welcome")`, the epoch secret
/// `Expand(Extract(joiner, psk_secret), "epoch", group_context)`, and the
/// epoch's keys come from the epoch secret. The first provider failure is
/// returned.
pub fn derive_epoch<P: CipherSuiteProvider>(
    p: &P,
    init_secret: &[u8],
    commit_secret: &[u8],
    psk_secret: &[u8],
    group_context: &[u8],
) -> (r: Result<EpochSecrets, P::Error>)
    ensures
        r matches Ok(s) ==> {
            &&& s.joiner_secret@ == p.spec_extract(init_secret@, commit_secret@)
            &&& s.welcome_secret@ == p.spec_expand(s.joiner_secret@, "welcome"@, Seq::empty(), p.spec_hash_len())
            &&& s.epoch_secret@ == epoch_secret_of(p, s.joiner_secret@, psk_secret@, group_context@)
            &&& keys_of(p, s.epoch_secret@, s.keys)
        },
{
    let nh = p.hash_len();
    let empty: Vec<u8> = Vec::new();
    let joiner_secret = p.kdf_extract(init_secret, commit_secret)?;
    let welcome_secret = p.kdf_expand(joiner_secret.as_slice(), "welcome", empty.as_slice(), nh)?;
    let member_secret = p.kdf_extract(joiner_secret.as_slice(), psk_secret)?;
    let epoch_secret = p.kdf_expand(member_secret.as_slice(), "epoch", group_context, nh)?;
    let keys = derive_keys(p, epoch_secret.as_slice())?;
    assert(empty@ =~= Seq::<u8>::empty());
    Ok(EpochSecrets { joiner_secret, welcome_secret, epoch_secret, keys })
}


/// Members agree on the epoch secret: two members that hold the same init
/// secret and apply a commit with the same commit secret, pre-shared key
/// secret and group context derive the same epoch secret and keys, so by
/// induction members that process the same commits agree at every epoch.
pub proof fn lemma_members_agree<P: CipherSuiteProvider>(
    p: &P,
    a: EpochSecrets,
    b: EpochSecrets,
    init_secret: Seq<u8>,
    commit_secret: Seq<u8>,
    psk_secret: Seq<u8>,
    group_context: Seq<u8>,
)
    requires
        a.joiner_secret@ == p.spec_extract(init_secret, commit_secret),
        b.joiner_secret@ == p.spec_extract(init_secret, commit_secret),
        a.epoch_secret@ == epoch_secret_of(p, a.joiner_secret@, psk_secret, group_context),
        b.epoch_secret@ == epoch_secret_of(p, b.joiner_secret@, psk_secret, group_context),
        keys_of(p, a.epoch_secret@, a.keys),
        keys_of(p, b.epoch_secret@, b.keys),
    ensures
        a.epoch_secret@ == b.epoch_secret@,
        a.keys.init_secret@ == b.keys.init_secret@,
        a.keys.encryption_secret@ == b.keys.encryption_secret@,
{
}

/// Forward secrecy of the schedule: the keys of an epoch are a function of
/// its epoch secret alone; two derivations from the same epoch secret give
/// the same keys whatever init secret preceded it.
pub proof fn lemma_keys_need_only_epoch_secret<P: CipherSuiteProvider>(p: &P, epoch_secret: Seq<u8>, a: EpochKeys, b: EpochKeys)
    requires
        keys_of(p, epoch_secret, a),
        keys_of(p, epoch_secret, b),
    ensures
        a.sender_data_secret@ == b.sender_data_secret@,
        a.encryption_secret@ == b.encryption_secret@,
        a.exporter_secret@ == b.exporter_secret@,
        a.external_secret@ == b.external_secret@,
        a.confirmation_key@ == b.confirmation_key@,
        a.membership_key@ == b.membership_key@,
        a.resumption_psk@ == b.resumption_psk@,
        a.init_secret@ == b.init_secret@,
{
}


/// What one commit contributes to the key schedule: its commit secret,
/// pre-shared key secret and the new group context.
pub struct CommitInput {
    pub commit_secret: Seq<u8>,
    pub psk_secret: Seq<u8>,
    pub group_context: Seq<u8>,
}

/// `secrets[k]` is what a member derives at the `k`th commit of `commits`,
/// starting from `init_secret` and, after the first, from the previous
/// epoch's init secret.
pub open spec fn schedule_chain<P: CipherSuiteProvider>(
    p: &P,
    init_secret: Seq<u8>,
    commits: Seq<CommitInput>,
    secrets: Seq<EpochSecrets>,
) -> bool {
    &&& secrets.len() == commits.len()
    &&& forall|k: int| 0 <= k < commits.len() ==> {
        let prev = if k == 0 { init_secret } else { secrets[k - 1].keys.init_secret@ };
        &&& (#[trigger] secrets[k]).joiner_secret@ == p.spec_extract(prev, commits[k].commit_secret)
        &&& secrets[k].epoch_secret@ == epoch_secret_of(p, secrets[k].joiner_secret@, commits[k].psk_secret, commits[k].group_context)
        &&& keys_of(p, secrets[k].epoch_secret@, secrets[k].keys)
    }
}

/// All members reach the same epoch secret: two members of a group that
/// start from the same init secret and process the same commits (each
/// giving, through `derive_epoch`, the secrets of `a` and `b`) hold the same
/// epoch secret and keys at every epoch, whoever committed.
pub proof fn lemma_chains_agree<P: CipherSuiteProvider>(
    p: &P,
    init_secret: Seq<u8>,
    commits: Seq<CommitInput>,
    a: Seq<EpochSecrets>,
    b: Seq<EpochSecrets>,
    k: int,
)
    requires
        schedule_chain(p, init_secret, commits, a),
        schedule_chain(p, init_secret, commits, b),
        0 <= k < commits.len(),
    ensures
        a[k].epoch_secret@ == b[k].epoch_secret@,
        a[k].keys.init_secret@ == b[k].keys.init_secret@,
        a[k].keys.encryption_secret@ == b[k].keys.encryption_secret@,
    decreases k,
{
    assert(a[k] == a[k]);
    assert(b[k] == b[k]);
    if k > 0 {
        lemma_chains_agree(p, init_secret, commits, a, b, k - 1);
    }
}

} // verus!
