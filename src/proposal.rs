use vstd::prelude::*;

use crate::cipher_suite::CipherSuite;
use crate::extension::ExtensionList;

verus! {

/// Identifier of a proposal type.
pub type ProposalType = u16;

pub const ADD_PROPOSAL_TYPE: ProposalType = 1;
pub const UPDATE_PROPOSAL_TYPE: ProposalType = 2;
pub const REMOVE_PROPOSAL_TYPE: ProposalType = 3;
pub const PSK_PROPOSAL_TYPE: ProposalType = 4;
pub const RE_INIT_PROPOSAL_TYPE: ProposalType = 5;
pub const EXTERNAL_INIT_PROPOSAL_TYPE: ProposalType = 6;
pub const GROUP_CONTEXT_EXTENSIONS_PROPOSAL_TYPE: ProposalType = 7;

/// Position of a leaf in the ratchet tree (leaf `i` occupies node slot `2i`).
#[derive(Debug, Clone, Copy, PartialEq, Eq, Structural, PartialOrd, Ord, Hash)]
pub struct LeafIndex(pub u32);

/// Who sent a message or proposal.
#[derive(Debug, Clone, Copy, PartialEq, Eq, Structural, Hash)]
pub enum Sender {
    /// A current member, by leaf.
    Member(LeafIndex),
    /// A pre-configured external sender, by position in the external senders extension.
    External(u32),
    /// A non-member proposing its own addition.
    NewMemberProposal,
    /// A non-member joining through an external commit.
    NewMemberCommit,
}

/// Validity period of a key package, in seconds since the Unix epoch.
#[derive(Debug, Clone, Copy, PartialEq, Eq, Structural, Hash)]
pub struct Lifetime {
    pub not_before: u64,
    pub not_after: u64,
}

/// How a leaf node came to be.
#[derive(Clone, Debug, PartialEq, Eq)]
pub enum LeafNodeSource {
    KeyPackage(Lifetime),
    Update,
    Commit(Vec<u8>),
}

/// A member's public identity: a signature key and a credential.
#[derive(Clone, Debug, PartialEq, Eq)]
pub struct SigningIdentity {
    pub signature_key: Vec<u8>,
    pub credential_type: u16,
    pub credential_data: Vec<u8>,
}

/// The tenant of a leaf slot of the ratchet tree.
#[derive(Clone, Debug, PartialEq, Eq)]
pub struct LeafNode {
    pub public_key: Vec<u8>,
    pub signing_identity: SigningIdentity,
    pub leaf_node_source: LeafNodeSource,
    pub signature: Vec<u8>,
}

/// A prospective member's published keys.
#[derive(Clone, Debug, PartialEq, Eq)]
pub struct KeyPackage {
    pub version: u16,
    pub cipher_suite: CipherSuite,
    pub init_key: Vec<u8>,
    pub leaf_node: LeafNode,
    pub extensions: ExtensionList,
    pub signature: Vec<u8>,
}

/// Add a new member.
#[derive(Clone, Debug, PartialEq, Eq)]
pub struct AddProposal {
    pub key_package: KeyPackage,
}

/// Replace the sender's own leaf.
#[derive(Clone, Debug, PartialEq, Eq)]
pub struct UpdateProposal {
    pub key_package: KeyPackage,
}

/// Remove the member at a leaf.
#[derive(Clone, Debug, PartialEq, Eq)]
pub struct RemoveProposal {
    pub to_remove: LeafIndex,
}

/// Use of a resumption pre-shared key.
#[derive(Debug, Clone, Copy, PartialEq, Eq, Structural, Hash)]
pub enum ResumptionPskUsage {
    Application,
    Reinit,
    Branch,
}

/// Identifier of a pre-shared key.
#[derive(Clone, Debug, PartialEq, Eq, Hash)]
pub enum PskId {
    External(Vec<u8>),
    Resumption { usage: ResumptionPskUsage, group_id: Vec<u8>, epoch: u64 },
}

/// Inject a pre-shared key into the next epoch.
#[derive(Clone, Debug, PartialEq, Eq)]
pub struct PreSharedKeyProposal {
    pub psk_id: PskId,
    pub psk_nonce: Vec<u8>,
}

/// Re-initialise the group with new parameters.
#[derive(Clone, Debug, PartialEq, Eq)]
pub struct ReInitProposal {
    pub group_id: Vec<u8>,
    pub version: u16,
    pub cipher_suite: CipherSuite,
    pub extensions: ExtensionList,
}

/// Join through an external commit.
#[derive(Clone, Debug, PartialEq, Eq)]
pub struct ExternalInit {
    pub kem_output: Vec<u8>,
}

/// A proposal of an application-defined type.
#[derive(Clone, Debug, PartialEq, Eq)]
pub struct CustomProposal {
    pub proposal_type: ProposalType,
    pub data: Vec<u8>,
}

impl CustomProposal {
    pub fn new(proposal_type: ProposalType, data: Vec<u8>) -> (r: CustomProposal)
        ensures
            r.proposal_type == proposal_type,
            r.data@ == data@,
    {
        CustomProposal { proposal_type, data }
    }

    pub fn proposal_type(&self) -> (r: ProposalType)
        ensures
            r == self.proposal_type,
    {
        self.proposal_type
    }
}

/// Number of bytes of a proposal reference.
pub const PROPOSAL_REF_LEN: usize = 16;

/// Reference to a proposal: a hash of its encoding, cut to sixteen bytes.
#[derive(Debug, Clone, Copy, PartialEq, Eq, Hash, PartialOrd, Ord)]
pub struct ProposalRef(pub [u8; 16]);

/// A change to the group.
#[derive(Clone, Debug, PartialEq, Eq)]
pub enum Proposal {
    Add(AddProposal),
    Update(UpdateProposal),
    Remove(RemoveProposal),
    Psk(PreSharedKeyProposal),
    ReInit(ReInitProposal),
    ExternalInit(ExternalInit),
    GroupContextExtensions(ExtensionList),
    Custom(CustomProposal),
}

impl Proposal {
    /// The wire identifier of this proposal's type.
    pub open spec fn spec_proposal_type(&self) -> ProposalType {
        match self {
            Proposal::Add(_) => ADD_PROPOSAL_TYPE,
            Proposal::Update(_) => UPDATE_PROPOSAL_TYPE,
            Proposal::Remove(_) => REMOVE_PROPOSAL_TYPE,
            Proposal::Psk(_) => PSK_PROPOSAL_TYPE,
            Proposal::ReInit(_) => RE_INIT_PROPOSAL_TYPE,
            Proposal::ExternalInit(_) => EXTERNAL_INIT_PROPOSAL_TYPE,
            Proposal::GroupContextExtensions(_) => GROUP_CONTEXT_EXTENSIONS_PROPOSAL_TYPE,
            Proposal::Custom(c) => c.proposal_type,
        }
    }

    pub fn proposal_type(&self) -> (r: ProposalType)
        ensures
            r == self.spec_proposal_type(),
    {
        match self {
            Proposal::Add(_) => ADD_PROPOSAL_TYPE,
            Proposal::Update(_) => UPDATE_PROPOSAL_TYPE,
            Proposal::Remove(_) => REMOVE_PROPOSAL_TYPE,
            Proposal::Psk(_) => PSK_PROPOSAL_TYPE,
            Proposal::ReInit(_) => RE_INIT_PROPOSAL_TYPE,
            Proposal::ExternalInit(_) => EXTERNAL_INIT_PROPOSAL_TYPE,
            Proposal::GroupContextExtensions(_) => GROUP_CONTEXT_EXTENSIONS_PROPOSAL_TYPE,
            Proposal::Custom(c) => c.proposal_type,
        }
    }

    pub fn as_add(&self) -> (r: Option<&AddProposal>)
        ensures
            match self {
                Proposal::Add(a) => r == Some(a),
                _ => r.is_none(),
            },
    {
        match self {
            Proposal::Add(add) => Some(add),
            _ => None,
        }
    }

    pub fn is_update(&self) -> (r: bool)
        ensures
            r == (self is Update),
    {
        matches!(self, Proposal::Update(_))
    }

    pub fn as_update(&self) -> (r: Option<&UpdateProposal>)
        ensures
            match self {
                Proposal::Update(u) => r == Some(u),
                _ => r.is_none(),
            },
    {
        match self {
            Proposal::Update(update) => Some(update),
            _ => None,
        }
    }

    pub fn is_remove(&self) -> (r: bool)
        ensures
            r == (self is Remove),
    {
        matches!(self, Proposal::Remove(_))
    }

    pub fn as_remove(&self) -> (r: Option<&RemoveProposal>)
        ensures
            match self {
                Proposal::Remove(rm) => r == Some(rm),
                _ => r.is_none(),
            },
    {
        match self {
            Proposal::Remove(removal) => Some(removal),
            _ => None,
        }
    }

    pub fn as_group_context_extensions(&self) -> (r: Option<&ExtensionList>)
        ensures
            match self {
                Proposal::GroupContextExtensions(e) => r == Some(e),
                _ => r.is_none(),
            },
    {
        match self {
            Proposal::GroupContextExtensions(context_ext) => Some(context_ext),
            _ => None,
        }
    }
}

/// A proposal carried in a commit, either in full or by reference.
#[derive(Clone, Debug, PartialEq, Eq)]
pub enum ProposalOrRef {
    Proposal(Box<Proposal>),
    Reference(ProposalRef),
}

/// A proposal received by reference and kept until a commit uses it.
#[derive(Clone, Debug, PartialEq, Eq)]
pub struct PendingProposal {
    pub proposal: Proposal,
    pub sender: Sender,
}

} // verus!
