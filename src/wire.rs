//! Wire encoding of key packages and proposals.
use vstd::prelude::*;

use crate::cipher_suite::CipherSuite;
use crate::codec::{be16, prefix_of, Codec};
use crate::extension::{Extension, ExtensionList};
use crate::node::NodeVec;
use crate::proposal::{
    Proposal, ProposalRef, ProposalType, ADD_PROPOSAL_TYPE, EXTERNAL_INIT_PROPOSAL_TYPE,
    GROUP_CONTEXT_EXTENSIONS_PROPOSAL_TYPE, PROPOSAL_REF_LEN, PSK_PROPOSAL_TYPE,
    RE_INIT_PROPOSAL_TYPE, REMOVE_PROPOSAL_TYPE, UPDATE_PROPOSAL_TYPE,
    AddProposal, CustomProposal, ExternalInit, KeyPackage, LeafIndex, LeafNode,
    PreSharedKeyProposal, PskId, ReInitProposal, RemoveProposal, ResumptionPskUsage,
    UpdateProposal,
};

verus! {

impl CipherSuite {
    pub open spec fn as_tuple(self) -> u16 {
        self.0
    }
}

impl Codec for CipherSuite {
    open spec fn enc(&self) -> Seq<u8> {
        self.as_tuple().enc()
    }

    open spec fn encodable(&self) -> bool {
        self.as_tuple().encodable()
    }

    proof fn lemma_unique(a: &Self, b: &Self, s: Seq<u8>) {
        <u16>::lemma_unique(&a.as_tuple(), &b.as_tuple(), s);
    }

    proof fn lemma_nonempty(a: &Self) {
        <u16>::lemma_nonempty(&a.as_tuple());
    }

    fn is_encodable(&self) -> (r: bool) {
        self.0.is_encodable()
    }

    fn encode(&self, out: &mut Vec<u8>) {
        self.0.encode(out);
        assert(out@ =~= old(out)@ + self.enc());
    }

    fn decode(data: &[u8], pos: usize, end: usize) -> (r: Option<(Self, usize)>) {
        match <u16>::decode(data, pos, end) {
            Some((v, p)) => {
                Some((CipherSuite(v), p))
            },
            None => {
                proof {
                    assert forall|x: CipherSuite| x.encodable() implies !#[trigger] prefix_of(x.enc(), data@.subrange(pos as int, end as int)) by {
                        assert(x.as_tuple().encodable());
                    }
                }
                None
            },
        }
    }
}

impl LeafIndex {
    pub open spec fn as_tuple(self) -> u32 {
        self.0
    }
}

impl Codec for LeafIndex {
    open spec fn enc(&self) -> Seq<u8> {
        self.as_tuple().enc()
    }

    open spec fn encodable(&self) -> bool {
        self.as_tuple().encodable()
    }

    proof fn lemma_unique(a: &Self, b: &Self, s: Seq<u8>) {
        <u32>::lemma_unique(&a.as_tuple(), &b.as_tuple(), s);
    }

    proof fn lemma_nonempty(a: &Self) {
        <u32>::lemma_nonempty(&a.as_tuple());
    }

    fn is_encodable(&self) -> (r: bool) {
        self.0.is_encodable()
    }

    fn encode(&self, out: &mut Vec<u8>) {
        self.0.encode(out);
        assert(out@ =~= old(out)@ + self.enc());
    }

    fn decode(data: &[u8], pos: usize, end: usize) -> (r: Option<(Self, usize)>) {
        match <u32>::decode(data, pos, end) {
            Some((v, p)) => {
                Some((LeafIndex(v), p))
            },
            None => {
                proof {
                    assert forall|x: LeafIndex| x.encodable() implies !#[trigger] prefix_of(x.enc(), data@.subrange(pos as int, end as int)) by {
                        assert(x.as_tuple().encodable());
                    }
                }
                None
            },
        }
    }
}

impl ExtensionList {
    pub open spec fn as_tuple(self) -> Vec<Extension> {
        self.extensions
    }
}

impl Codec for ExtensionList {
    open spec fn enc(&self) -> Seq<u8> {
        self.as_tuple().enc()
    }

    open spec fn encodable(&self) -> bool {
        self.as_tuple().encodable()
    }

    proof fn lemma_unique(a: &Self, b: &Self, s: Seq<u8>) {
        <Vec<Extension>>::lemma_unique(&a.as_tuple(), &b.as_tuple(), s);
    }

    proof fn lemma_nonempty(a: &Self) {
        <Vec<Extension>>::lemma_nonempty(&a.as_tuple());
    }

    fn is_encodable(&self) -> (r: bool) {
        self.extensions.is_encodable()
    }

    fn encode(&self, out: &mut Vec<u8>) {
        self.extensions.encode(out);
        assert(out@ =~= old(out)@ + self.enc());
    }

    fn decode(data: &[u8], pos: usize, end: usize) -> (r: Option<(Self, usize)>) {
        match <Vec<Extension>>::decode(data, pos, end) {
            Some((extensions, p)) => {
                Some((ExtensionList { extensions }, p))
            },
            None => {
                proof {
                    assert forall|x: ExtensionList| x.encodable() implies !#[trigger] prefix_of(x.enc(), data@.subrange(pos as int, end as int)) by {
                        assert(x.as_tuple().encodable());
                    }
                }
                None
            },
        }
    }
}

impl KeyPackage {
    pub open spec fn as_tuple(self) -> (u16, (CipherSuite, (Vec<u8>, (LeafNode, (ExtensionList, Vec<u8>))))) {
        (self.version, (self.cipher_suite, (self.init_key, (self.leaf_node, (self.extensions, self.signature)))))
    }
}

impl Codec for KeyPackage {
    open spec fn enc(&self) -> Seq<u8> {
        self.as_tuple().enc()
    }

    open spec fn encodable(&self) -> bool {
        self.as_tuple().encodable()
    }

    proof fn lemma_unique(a: &Self, b: &Self, s: Seq<u8>) {
        <(u16, (CipherSuite, (Vec<u8>, (LeafNode, (ExtensionList, Vec<u8>)))))>::lemma_unique(&a.as_tuple(), &b.as_tuple(), s);
    }

    proof fn lemma_nonempty(a: &Self) {
        <(u16, (CipherSuite, (Vec<u8>, (LeafNode, (ExtensionList, Vec<u8>)))))>::lemma_nonempty(&a.as_tuple());
    }

    fn is_encodable(&self) -> (r: bool) {
        self.version.is_encodable() && self.cipher_suite.is_encodable() && self.init_key.is_encodable() && self.leaf_node.is_encodable() && self.extensions.is_encodable() && self.signature.is_encodable()
    }

    fn encode(&self, out: &mut Vec<u8>) {
        self.version.encode(out);
        self.cipher_suite.encode(out);
        self.init_key.encode(out);
        self.leaf_node.encode(out);
        self.extensions.encode(out);
        self.signature.encode(out);
        assert(out@ =~= old(out)@ + self.enc());
    }

    fn decode(data: &[u8], pos: usize, end: usize) -> (r: Option<(Self, usize)>) {
        match <(u16, (CipherSuite, (Vec<u8>, (LeafNode, (ExtensionList, Vec<u8>)))))>::decode(data, pos, end) {
            Some(((version, (cipher_suite, (init_key, (leaf_node, (extensions, signature))))), p)) => {
                Some((KeyPackage { version, cipher_suite, init_key, leaf_node, extensions, signature }, p))
            },
            None => {
                proof {
                    assert forall|x: KeyPackage| x.encodable() implies !#[trigger] prefix_of(x.enc(), data@.subrange(pos as int, end as int)) by {
                        assert(x.as_tuple().encodable());
                    }
                }
                None
            },
        }
    }
}

impl AddProposal {
    pub open spec fn as_tuple(self) -> KeyPackage {
        self.key_package
    }
}

impl Codec for AddProposal {
    open spec fn enc(&self) -> Seq<u8> {
        self.as_tuple().enc()
    }

    open spec fn encodable(&self) -> bool {
        self.as_tuple().encodable()
    }

    proof fn lemma_unique(a: &Self, b: &Self, s: Seq<u8>) {
        <KeyPackage>::lemma_unique(&a.as_tuple(), &b.as_tuple(), s);
    }

    proof fn lemma_nonempty(a: &Self) {
        <KeyPackage>::lemma_nonempty(&a.as_tuple());
    }

    fn is_encodable(&self) -> (r: bool) {
        self.key_package.is_encodable()
    }

    fn encode(&self, out: &mut Vec<u8>) {
        self.key_package.encode(out);
        assert(out@ =~= old(out)@ + self.enc());
    }

    fn decode(data: &[u8], pos: usize, end: usize) -> (r: Option<(Self, usize)>) {
        match <KeyPackage>::decode(data, pos, end) {
            Some((key_package, p)) => {
                Some((AddProposal { key_package }, p))
            },
            None => {
                proof {
                    assert forall|x: AddProposal| x.encodable() implies !#[trigger] prefix_of(x.enc(), data@.subrange(pos as int, end as int)) by {
                        assert(x.as_tuple().encodable());
                    }
                }
                None
            },
        }
    }
}

impl UpdateProposal {
    pub open spec fn as_tuple(self) -> KeyPackage {
        self.key_package
    }
}

impl Codec for UpdateProposal {
    open spec fn enc(&self) -> Seq<u8> {
        self.as_tuple().enc()
    }

    open spec fn encodable(&self) -> bool {
        self.as_tuple().encodable()
    }

    proof fn lemma_unique(a: &Self, b: &Self, s: Seq<u8>) {
        <KeyPackage>::lemma_unique(&a.as_tuple(), &b.as_tuple(), s);
    }

    proof fn lemma_nonempty(a: &Self) {
        <KeyPackage>::lemma_nonempty(&a.as_tuple());
    }

    fn is_encodable(&self) -> (r: bool) {
        self.key_package.is_encodable()
    }

    fn encode(&self, out: &mut Vec<u8>) {
        self.key_package.encode(out);
        assert(out@ =~= old(out)@ + self.enc());
    }

    fn decode(data: &[u8], pos: usize, end: usize) -> (r: Option<(Self, usize)>) {
        match <KeyPackage>::decode(data, pos, end) {
            Some((key_package, p)) => {
                Some((UpdateProposal { key_package }, p))
            },
            None => {
                proof {
                    assert forall|x: UpdateProposal| x.encodable() implies !#[trigger] prefix_of(x.enc(), data@.subrange(pos as int, end as int)) by {
                        assert(x.as_tuple().encodable());
                    }
                }
                None
            },
        }
    }
}

impl RemoveProposal {
    pub open spec fn as_tuple(self) -> LeafIndex {
        self.to_remove
    }
}

impl Codec for RemoveProposal {
    open spec fn enc(&self) -> Seq<u8> {
        self.as_tuple().enc()
    }

    open spec fn encodable(&self) -> bool {
        self.as_tuple().encodable()
    }

    proof fn lemma_unique(a: &Self, b: &Self, s: Seq<u8>) {
        <LeafIndex>::lemma_unique(&a.as_tuple(), &b.as_tuple(), s);
    }

    proof fn lemma_nonempty(a: &Self) {
        <LeafIndex>::lemma_nonempty(&a.as_tuple());
    }

    fn is_encodable(&self) -> (r: bool) {
        self.to_remove.is_encodable()
    }

    fn encode(&self, out: &mut Vec<u8>) {
        self.to_remove.encode(out);
        assert(out@ =~= old(out)@ + self.enc());
    }

    fn decode(data: &[u8], pos: usize, end: usize) -> (r: Option<(Self, usize)>) {
        match <LeafIndex>::decode(data, pos, end) {
            Some((to_remove, p)) => {
                Some((RemoveProposal { to_remove }, p))
            },
            None => {
                proof {
                    assert forall|x: RemoveProposal| x.encodable() implies !#[trigger] prefix_of(x.enc(), data@.subrange(pos as int, end as int)) by {
                        assert(x.as_tuple().encodable());
                    }
                }
                None
            },
        }
    }
}

impl ExternalInit {
    pub open spec fn as_tuple(self) -> Vec<u8> {
        self.kem_output
    }
}

impl Codec for ExternalInit {
    open spec fn enc(&self) -> Seq<u8> {
        self.as_tuple().enc()
    }

    open spec fn encodable(&self) -> bool {
        self.as_tuple().encodable()
    }

    proof fn lemma_unique(a: &Self, b: &Self, s: Seq<u8>) {
        <Vec<u8>>::lemma_unique(&a.as_tuple(), &b.as_tuple(), s);
    }

    proof fn lemma_nonempty(a: &Self) {
        <Vec<u8>>::lemma_nonempty(&a.as_tuple());
    }

    fn is_encodable(&self) -> (r: bool) {
        self.kem_output.is_encodable()
    }

    fn encode(&self, out: &mut Vec<u8>) {
        self.kem_output.encode(out);
        assert(out@ =~= old(out)@ + self.enc());
    }

    fn decode(data: &[u8], pos: usize, end: usize) -> (r: Option<(Self, usize)>) {
        match <Vec<u8>>::decode(data, pos, end) {
            Some((kem_output, p)) => {
                Some((ExternalInit { kem_output }, p))
            },
            None => {
                proof {
                    assert forall|x: ExternalInit| x.encodable() implies !#[trigger] prefix_of(x.enc(), data@.subrange(pos as int, end as int)) by {
                        assert(x.as_tuple().encodable());
                    }
                }
                None
            },
        }
    }
}

impl CustomProposal {
    pub open spec fn as_tuple(self) -> (u16, Vec<u8>) {
        (self.proposal_type, self.data)
    }
}

impl Codec for CustomProposal {
    open spec fn enc(&self) -> Seq<u8> {
        self.as_tuple().enc()
    }

    open spec fn encodable(&self) -> bool {
        self.as_tuple().encodable()
    }

    proof fn lemma_unique(a: &Self, b: &Self, s: Seq<u8>) {
        <(u16, Vec<u8>)>::lemma_unique(&a.as_tuple(), &b.as_tuple(), s);
    }

    proof fn lemma_nonempty(a: &Self) {
        <(u16, Vec<u8>)>::lemma_nonempty(&a.as_tuple());
    }

    fn is_encodable(&self) -> (r: bool) {
        self.proposal_type.is_encodable() && self.data.is_encodable()
    }

    fn encode(&self, out: &mut Vec<u8>) {
        self.proposal_type.encode(out);
        self.data.encode(out);
        assert(out@ =~= old(out)@ + self.enc());
    }

    fn decode(data: &[u8], pos: usize, end: usize) -> (r: Option<(Self, usize)>) {
        match <(u16, Vec<u8>)>::decode(data, pos, end) {
            Some(((proposal_type, data), p)) => {
                Some((CustomProposal { proposal_type, data }, p))
            },
            None => {
                proof {
                    assert forall|x: CustomProposal| x.encodable() implies !#[trigger] prefix_of(x.enc(), data@.subrange(pos as int, end as int)) by {
                        assert(x.as_tuple().encodable());
                    }
                }
                None
            },
        }
    }
}

impl ReInitProposal {
    pub open spec fn as_tuple(self) -> (Vec<u8>, (u16, (CipherSuite, ExtensionList))) {
        (self.group_id, (self.version, (self.cipher_suite, self.extensions)))
    }
}

impl Codec for ReInitProposal {
    open spec fn enc(&self) -> Seq<u8> {
        self.as_tuple().enc()
    }

    open spec fn encodable(&self) -> bool {
        self.as_tuple().encodable()
    }

    proof fn lemma_unique(a: &Self, b: &Self, s: Seq<u8>) {
        <(Vec<u8>, (u16, (CipherSuite, ExtensionList)))>::lemma_unique(&a.as_tuple(), &b.as_tuple(), s);
    }

    proof fn lemma_nonempty(a: &Self) {
        <(Vec<u8>, (u16, (CipherSuite, ExtensionList)))>::lemma_nonempty(&a.as_tuple());
    }

    fn is_encodable(&self) -> (r: bool) {
        self.group_id.is_encodable() && self.version.is_encodable() && self.cipher_suite.is_encodable() && self.extensions.is_encodable()
    }

    fn encode(&self, out: &mut Vec<u8>) {
        self.group_id.encode(out);
        self.version.encode(out);
        self.cipher_suite.encode(out);
        self.extensions.encode(out);
        assert(out@ =~= old(out)@ + self.enc());
    }

    fn decode(data: &[u8], pos: usize, end: usize) -> (r: Option<(Self, usize)>) {
        match <(Vec<u8>, (u16, (CipherSuite, ExtensionList)))>::decode(data, pos, end) {
            Some(((group_id, (version, (cipher_suite, extensions))), p)) => {
                Some((ReInitProposal { group_id, version, cipher_suite, extensions }, p))
            },
            None => {
                proof {
                    assert forall|x: ReInitProposal| x.encodable() implies !#[trigger] prefix_of(x.enc(), data@.subrange(pos as int, end as int)) by {
                        assert(x.as_tuple().encodable());
                    }
                }
                None
            },
        }
    }
}

impl PreSharedKeyProposal {
    pub open spec fn as_tuple(self) -> (PskId, Vec<u8>) {
        (self.psk_id, self.psk_nonce)
    }
}

impl Codec for PreSharedKeyProposal {
    open spec fn enc(&self) -> Seq<u8> {
        self.as_tuple().enc()
    }

    open spec fn encodable(&self) -> bool {
        self.as_tuple().encodable()
    }

    proof fn lemma_unique(a: &Self, b: &Self, s: Seq<u8>) {
        <(PskId, Vec<u8>)>::lemma_unique(&a.as_tuple(), &b.as_tuple(), s);
    }

    proof fn lemma_nonempty(a: &Self) {
        <(PskId, Vec<u8>)>::lemma_nonempty(&a.as_tuple());
    }

    fn is_encodable(&self) -> (r: bool) {
        self.psk_id.is_encodable() && self.psk_nonce.is_encodable()
    }

    fn encode(&self, out: &mut Vec<u8>) {
        self.psk_id.encode(out);
        self.psk_nonce.encode(out);
        assert(out@ =~= old(out)@ + self.enc());
    }

    fn decode(data: &[u8], pos: usize, end: usize) -> (r: Option<(Self, usize)>) {
        match <(PskId, Vec<u8>)>::decode(data, pos, end) {
            Some(((psk_id, psk_nonce), p)) => {
                Some((PreSharedKeyProposal { psk_id, psk_nonce }, p))
            },
            None => {
                proof {
                    assert forall|x: PreSharedKeyProposal| x.encodable() implies !#[trigger] prefix_of(x.enc(), data@.subrange(pos as int, end as int)) by {
                        assert(x.as_tuple().encodable());
                    }
                }
                None
            },
        }
    }
}

/// Wire value of a resumption key usage.
pub open spec fn usage_byte(u: ResumptionPskUsage) -> u8 {
    match u {
        ResumptionPskUsage::Application => 1,
        ResumptionPskUsage::Reinit => 2,
        ResumptionPskUsage::Branch => 3,
    }
}

impl Codec for ResumptionPskUsage {
    open spec fn enc(&self) -> Seq<u8> {
        seq![usage_byte(*self)]
    }

    open spec fn encodable(&self) -> bool {
        true
    }

    proof fn lemma_unique(a: &Self, b: &Self, s: Seq<u8>) {
        assert(a.enc()[0] == s[0]);
        assert(b.enc()[0] == s[0]);
        assert(a.enc() =~= b.enc());
    }

    proof fn lemma_nonempty(a: &Self) {
    }

    fn is_encodable(&self) -> (r: bool) {
        true
    }

    fn encode(&self, out: &mut Vec<u8>) {
        let b: u8 = match self {
            ResumptionPskUsage::Application => 1,
            ResumptionPskUsage::Reinit => 2,
            ResumptionPskUsage::Branch => 3,
        };
        out.push(b);
        assert(out@ =~= old(out)@ + self.enc());
    }

    fn decode(data: &[u8], pos: usize, end: usize) -> (r: Option<(Self, usize)>) {
        let ghost s = data@.subrange(pos as int, end as int);
        if pos >= end {
            return None;
        }
        let b = data[pos];
        proof {
            assert forall|x: ResumptionPskUsage| prefix_of(x.enc(), s) implies usage_byte(x) == b by {
                assert(x.enc()[0] == s[0]);
            }
        }
        let u = if b == 1 {
            ResumptionPskUsage::Application
        } else if b == 2 {
            ResumptionPskUsage::Reinit
        } else if b == 3 {
            ResumptionPskUsage::Branch
        } else {
            return None;
        };
        assert(data@.subrange(pos as int, pos + 1) =~= u.enc());
        Some((u, pos + 1))
    }
}

pub const PSK_EXTERNAL: u8 = 1;
pub const PSK_RESUMPTION: u8 = 2;

impl Codec for PskId {
    open spec fn enc(&self) -> Seq<u8> {
        match self {
            PskId::External(id) => seq![PSK_EXTERNAL] + id.enc(),
            PskId::Resumption { usage, group_id, epoch } => seq![PSK_RESUMPTION] + (*usage, (*group_id, *epoch)).enc(),
        }
    }

    open spec fn encodable(&self) -> bool {
        match self {
            PskId::External(id) => id.encodable(),
            PskId::Resumption { usage, group_id, epoch } => (*usage, (*group_id, *epoch)).encodable(),
        }
    }

    proof fn lemma_unique(a: &Self, b: &Self, s: Seq<u8>) {
        assert(a.enc()[0] == s[0]);
        assert(b.enc()[0] == s[0]);
        let t = s.subrange(1, s.len() as int);
        assert(t.subrange(0, (a.enc().len() - 1) as int) =~= a.enc().subrange(1, a.enc().len() as int));
        assert(t.subrange(0, (b.enc().len() - 1) as int) =~= b.enc().subrange(1, b.enc().len() as int));
        match (a, b) {
            (PskId::External(x), PskId::External(y)) => {
                assert(a.enc().subrange(1, a.enc().len() as int) =~= x.enc());
                assert(b.enc().subrange(1, b.enc().len() as int) =~= y.enc());
                <Vec<u8>>::lemma_unique(x, y, t);
            },
            (PskId::Resumption { usage: u1, group_id: g1, epoch: e1 }, PskId::Resumption { usage: u2, group_id: g2, epoch: e2 }) => {
                let x = (*u1, (*g1, *e1));
                let y = (*u2, (*g2, *e2));
                assert(a.enc().subrange(1, a.enc().len() as int) =~= x.enc());
                assert(b.enc().subrange(1, b.enc().len() as int) =~= y.enc());
                <(ResumptionPskUsage, (Vec<u8>, u64))>::lemma_unique(&x, &y, t);
            },
            _ => {},
        }
    }

    proof fn lemma_nonempty(a: &Self) {
    }

    fn is_encodable(&self) -> (r: bool) {
        match self {
            PskId::External(id) => id.is_encodable(),
            PskId::Resumption { usage, group_id, epoch } => usage.is_encodable() && group_id.is_encodable() && epoch.is_encodable(),
        }
    }

    fn encode(&self, out: &mut Vec<u8>) {
        match self {
            PskId::External(id) => {
                out.push(PSK_EXTERNAL);
                id.encode(out);
            },
            PskId::Resumption { usage, group_id, epoch } => {
                out.push(PSK_RESUMPTION);
                usage.encode(out);
                group_id.encode(out);
                epoch.encode(out);
            },
        }
        assert(out@ =~= old(out)@ + self.enc());
    }

    fn decode(data: &[u8], pos: usize, end: usize) -> (r: Option<(Self, usize)>) {
        let ghost s = data@.subrange(pos as int, end as int);
        if pos >= end {
            return None;
        }
        let tag = data[pos];
        let ghost t = data@.subrange(pos + 1, end as int);
        proof {
            assert forall|x: PskId| prefix_of(x.enc(), s) implies x.enc()[0] == tag
                && prefix_of(x.enc().subrange(1, x.enc().len() as int), t) by {
                assert(x.enc()[0] == s[0]);
                assert(t.subrange(0, x.enc().len() - 1) =~= x.enc().subrange(1, x.enc().len() as int));
            }
        }
        if tag == PSK_EXTERNAL {
            match <Vec<u8>>::decode(data, pos + 1, end) {
                Some((id, p)) => {
                    assert(data@.subrange(pos as int, p as int) =~= seq![PSK_EXTERNAL] + data@.subrange(pos + 1, p as int));
                    Some((PskId::External(id), p))
                },
                None => {
                    proof {
                        assert forall|x: PskId| x.encodable() implies !#[trigger] prefix_of(x.enc(), s) by {
                            if prefix_of(x.enc(), s) {
                                if let PskId::External(id) = x {
                                    assert(x.enc().subrange(1, x.enc().len() as int) =~= id.enc());
                                }
                            }
                        }
                    }
                    None
                },
            }
        } else if tag == PSK_RESUMPTION {
            match <(ResumptionPskUsage, (Vec<u8>, u64))>::decode(data, pos + 1, end) {
                Some(((usage, (group_id, epoch)), p)) => {
                    assert(data@.subrange(pos as int, p as int) =~= seq![PSK_RESUMPTION] + data@.subrange(pos + 1, p as int));
                    Some((PskId::Resumption { usage, group_id, epoch }, p))
                },
                None => {
                    proof {
                        assert forall|x: PskId| x.encodable() implies !#[trigger] prefix_of(x.enc(), s) by {
                            if prefix_of(x.enc(), s) {
                                if let PskId::Resumption { usage, group_id, epoch } = x {
                                    assert(x.enc().subrange(1, x.enc().len() as int) =~= (usage, (group_id, epoch)).enc());
                                }
                            }
                        }
                    }
                    None
                },
            }
        } else {
            None
        }
    }
}


/// Cryptographic operations of a cipher suite, supplied by the
/// application. Each operation is a function of its arguments: the
/// `spec_` functions name those functions, and each method returns, when it
/// succeeds, the value they name.
pub trait CipherSuiteProvider {
    type Error;

    /// The suite's hash of `data`.
    closed spec fn spec_hash(&self, data: Seq<u8>) -> Seq<u8> {
        arbitrary()
    }

    /// Output length of the suite's hash.
    closed spec fn spec_hash_len(&self) -> nat {
        arbitrary()
    }

    /// The suite's extraction function.
    closed spec fn spec_extract(&self, salt: Seq<u8>, ikm: Seq<u8>) -> Seq<u8> {
        arbitrary()
    }

    /// The suite's labelled expansion function.
    closed spec fn spec_expand(&self, secret: Seq<u8>, label: Seq<char>, context: Seq<u8>, len: nat) -> Seq<u8> {
        arbitrary()
    }

    /// Whether `signature` is a valid signature of `data` under `public_key`.
    closed spec fn spec_verify(&self, public_key: Seq<u8>, data: Seq<u8>, signature: Seq<u8>) -> bool {
        arbitrary()
    }

    /// The suite's hash of `data`.
    fn hash(&self, data: &[u8]) -> (r: Result<Vec<u8>, Self::Error>)
        ensures
            r matches Ok(v) ==> v@ == self.spec_hash(data@),
    ;

    /// Output length of the suite's hash.
    fn hash_len(&self) -> (r: usize)
        ensures
            r == self.spec_hash_len(),
    ;

    /// The suite's extraction function.
    fn kdf_extract(&self, salt: &[u8], ikm: &[u8]) -> (r: Result<Vec<u8>, Self::Error>)
        ensures
            r matches Ok(v) ==> v@ == self.spec_extract(salt@, ikm@),
    ;

    /// The suite's labelled expansion function, with output length `len`.
    fn kdf_expand(&self, secret: &[u8], label: &str, context: &[u8], len: usize) -> (r: Result<Vec<u8>, Self::Error>)
        ensures
            r matches Ok(v) ==> v@ == self.spec_expand(secret@, label@, context@, len as nat),
    ;

    /// Check `signature` over `data` under `public_key`.
    fn verify(&self, public_key: &[u8], data: &[u8], signature: &[u8]) -> (r: bool)
        ensures
            r == self.spec_verify(public_key@, data@, signature@),
    ;
}

impl Proposal {
    /// The wire encoding: the proposal type, then its content.
    pub open spec fn spec_encoding(self) -> Seq<u8> {
        match self {
            Proposal::Add(p) => be16(ADD_PROPOSAL_TYPE) + p.enc(),
            Proposal::Update(p) => be16(UPDATE_PROPOSAL_TYPE) + p.enc(),
            Proposal::Remove(p) => be16(REMOVE_PROPOSAL_TYPE) + p.enc(),
            Proposal::Psk(p) => be16(PSK_PROPOSAL_TYPE) + p.enc(),
            Proposal::ReInit(p) => be16(RE_INIT_PROPOSAL_TYPE) + p.enc(),
            Proposal::ExternalInit(p) => be16(EXTERNAL_INIT_PROPOSAL_TYPE) + p.enc(),
            Proposal::GroupContextExtensions(p) => be16(GROUP_CONTEXT_EXTENSIONS_PROPOSAL_TYPE) + p.enc(),
            Proposal::Custom(p) => be16(p.proposal_type) + p.data.enc(),
        }
    }

    /// The content fits the encoding's length limits.
    pub open spec fn encodable(self) -> bool {
        match self {
            Proposal::Add(p) => p.encodable(),
            Proposal::Update(p) => p.encodable(),
            Proposal::Remove(p) => p.encodable(),
            Proposal::Psk(p) => p.encodable(),
            Proposal::ReInit(p) => p.encodable(),
            Proposal::ExternalInit(p) => p.encodable(),
            Proposal::GroupContextExtensions(p) => p.encodable(),
            Proposal::Custom(p) => p.data.encodable(),
        }
    }

    /// Whether the content fits the encoding's length limits.
    pub fn is_encodable(&self) -> (r: bool)
        ensures
            r == self.encodable(),
    {
        match self {
            Proposal::Add(p) => p.is_encodable(),
            Proposal::Update(p) => p.is_encodable(),
            Proposal::Remove(p) => p.is_encodable(),
            Proposal::Psk(p) => p.is_encodable(),
            Proposal::ReInit(p) => p.is_encodable(),
            Proposal::ExternalInit(p) => p.is_encodable(),
            Proposal::GroupContextExtensions(p) => p.is_encodable(),
            Proposal::Custom(p) => p.data.is_encodable(),
        }
    }

    /// Append the wire encoding.
    pub fn encode(&self, out: &mut Vec<u8>)
        requires
            self.encodable(),
        ensures
            final(out)@ == old(out)@ + self.spec_encoding(),
    {
        let t: ProposalType = self.proposal_type();
        t.encode(out);
        match self {
            Proposal::Add(p) => p.encode(out),
            Proposal::Update(p) => p.encode(out),
            Proposal::Remove(p) => p.encode(out),
            Proposal::Psk(p) => p.encode(out),
            Proposal::ReInit(p) => p.encode(out),
            Proposal::ExternalInit(p) => p.encode(out),
            Proposal::GroupContextExtensions(p) => p.encode(out),
            Proposal::Custom(p) => p.data.encode(out),
        }
        assert(out@ =~= old(out)@ + self.spec_encoding());
    }

    /// The input to the hash that names this proposal: the label
    /// "MLS 1.0 Proposal Reference" and the encoded proposal, each as a
    /// length-prefixed vector.
    pub open spec fn spec_reference_input(self) -> Seq<u8> {
        crate::codec::varint(proposal_ref_label().len()) + proposal_ref_label()
            + crate::codec::varint(self.spec_encoding().len()) + self.spec_encoding()
    }

    /// The input to the hash that names this proposal.
    pub fn reference_input(&self) -> (r: Vec<u8>)
        requires
            self.encodable(),
            self.spec_encoding().len() <= crate::codec::MAX_VARINT,
        ensures
            r@ == self.spec_reference_input(),
    {
        let mut value: Vec<u8> = Vec::new();
        self.encode(&mut value);
        assert(value@ == self.spec_encoding());
        let label = label_bytes();
        let mut out: Vec<u8> = Vec::new();
        proof {
            lemma_bytes_enc(label@);
        }
        label.encode(&mut out);
        assert(crate::codec::all_encodable(value@));
        assert(crate::codec::concat_enc(value@) == value@) by {
            lemma_bytes_enc(value@);
        }
        value.encode(&mut out);
        proof {
            lemma_bytes_enc(label@);
        }
        out
    }

    /// A reference to this proposal, from the hash the provider computes of
    /// `reference_input`.
    pub fn to_reference<P: CipherSuiteProvider>(&self, provider: &P) -> (r: Result<ProposalRef, ReferenceError<P::Error>>)
        ensures
            !(self.encodable() && self.spec_encoding().len() <= crate::codec::MAX_VARINT)
                ==> r matches Err(ReferenceError::Encoding),
            r matches Ok(x) ==> provider.spec_hash(self.spec_reference_input()).len() >= PROPOSAL_REF_LEN
                && x.0@ == provider.spec_hash(self.spec_reference_input()).subrange(0, PROPOSAL_REF_LEN as int),
            r matches Err(ReferenceError::HashTooShort(n)) ==> n == provider.spec_hash(self.spec_reference_input()).len()
                && n < PROPOSAL_REF_LEN,
    {
        if !self.is_encodable() {
            return Err(ReferenceError::Encoding);
        }
        let mut value: Vec<u8> = Vec::new();
        self.encode(&mut value);
        if value.len() as u64 > crate::codec::MAX_VARINT {
            return Err(ReferenceError::Encoding);
        }
        let input = self.reference_input();
        match provider.hash(input.as_slice()) {
            Ok(digest) => match ProposalRef::from_hash(digest.as_slice()) {
                Some(r) => Ok(r),
                None => Err(ReferenceError::HashTooShort(digest.len())),
            },
            Err(e) => Err(ReferenceError::Crypto(e)),
        }
    }
}

/// Why a proposal reference could not be computed.
pub enum ReferenceError<E> {
    /// The provider failed to hash.
    Crypto(E),
    /// The hash was shorter than a reference.
    HashTooShort(usize),
    /// The proposal is too long to encode.
    Encoding,
}

impl ProposalRef {
    /// The reference made of the first sixteen bytes of `digest`.
    pub fn from_hash(digest: &[u8]) -> (r: Option<ProposalRef>)
        ensures
            digest@.len() < PROPOSAL_REF_LEN ==> r.is_none(),
            digest@.len() >= PROPOSAL_REF_LEN ==> (r matches Some(x) && x.0@ == digest@.subrange(0, PROPOSAL_REF_LEN as int)),
    {
        if digest.len() < PROPOSAL_REF_LEN {
            return None;
        }
        let mut bytes: [u8; 16] = [0u8; 16];
        let mut i: usize = 0;
        while i < PROPOSAL_REF_LEN
            invariant
                i <= PROPOSAL_REF_LEN <= digest@.len(),
                bytes@.len() == PROPOSAL_REF_LEN,
                forall|j: int| 0 <= j < i ==> bytes@[j] == digest@[j],
            decreases PROPOSAL_REF_LEN - i,
        {
            bytes.set(i, digest[i]);
            i = i + 1;
        }
        assert(bytes@ =~= digest@.subrange(0, PROPOSAL_REF_LEN as int));
        Some(ProposalRef(bytes))
    }
}

/// The label of proposal references, "MLS 1.0 Proposal Reference".
pub open spec fn proposal_ref_label() -> Seq<u8> {
    seq![77u8, 76, 83, 32, 49, 46, 48, 32, 80, 114, 111, 112, 111, 115, 97, 108, 32, 82, 101, 102, 101, 114, 101, 110, 99, 101]
}

fn label_bytes() -> (r: Vec<u8>)
    ensures
        r@ == proposal_ref_label(),
{
    let r: Vec<u8> = vec![77u8, 76, 83, 32, 49, 46, 48, 32, 80, 114, 111, 112, 111, 115, 97, 108, 32, 82, 101, 102, 101, 114, 101, 110, 99, 101];
    assert(r@ =~= proposal_ref_label());
    r
}

/// A byte vector's items encode to the bytes themselves.
pub(crate) proof fn lemma_bytes_enc(s: Seq<u8>)
    ensures
        crate::codec::concat_enc(s) == s,
        crate::codec::all_encodable(s),
    decreases s.len(),
{
    if s.len() > 0 {
        lemma_bytes_enc(s.drop_first());
        assert(s[0].enc() + s.drop_first() =~= s);
    } else {
        assert(crate::codec::concat_enc(s) =~= s);
    }
}

impl ExtensionList {
    /// The encoded list.
    pub fn to_bytes(&self) -> (r: Vec<u8>)
        requires
            self.encodable(),
        ensures
            r@ == self.enc(),
    {
        let mut out: Vec<u8> = Vec::new();
        self.encode(&mut out);
        assert(out@ =~= self.enc());
        out
    }

    /// Read an encoded list; a list that names a type twice is refused.
    pub fn from_bytes(data: &[u8]) -> (r: Result<ExtensionList, crate::extension::ExtensionError>)
        ensures
            match r {
                Ok(l) => l.enc() == data@ && l.encodable() && l.wf(),
                Err(crate::extension::ExtensionError::DuplicateExtension(t)) => exists|l: ExtensionList|
                    l.enc() == data@ && l.encodable() && !l.wf(),
                Err(crate::extension::ExtensionError::DeserializationError) => forall|l: ExtensionList|
                    l.encodable() ==> #[trigger] l.enc() != data@,
                Err(_) => false,
            },
    {
        let n = data.len();
        match ExtensionList::decode(data, 0, n) {
            Some((l, p)) => {
                if p != n {
                    proof {
                        assert forall|y: ExtensionList| y.encodable() implies #[trigger] y.enc() != data@ by {
                            if y.enc() == data@ {
                                assert(data@.subrange(0, n as int) =~= data@);
                                ExtensionList::lemma_unique(&l, &y, data@);
                            }
                        }
                    }
                    return Err(crate::extension::ExtensionError::DeserializationError);
                }
                assert(data@.subrange(0, n as int) =~= data@);
                let mut i: usize = 0;
                while i < l.extensions.len()
                    invariant
                        i <= l.spec_list().len(),
                        l.enc() == data@,
                        l.encodable(),
                        forall|a: int, b: int| 0 <= a < b < i ==> #[trigger] l.spec_list()[a].extension_type != #[trigger] l.spec_list()[b].extension_type,
                    decreases l.spec_list().len() - i,
                {
                    let t = l.extensions[i].extension_type;
                    let mut j: usize = 0;
                    while j < i
                        invariant
                            j <= i < l.spec_list().len(),
                            l.enc() == data@,
                            l.encodable(),
                            t == l.spec_list()[i as int].extension_type,
                            forall|a: int| 0 <= a < j ==> #[trigger] l.spec_list()[a].extension_type != t,
                        decreases i - j,
                    {
                        if l.extensions[j].extension_type == t {
                            proof {
                                assert(l.spec_list()[j as int].extension_type == l.spec_list()[i as int].extension_type);
                                assert(!l.wf());
                            }
                            return Err(crate::extension::ExtensionError::DuplicateExtension(t));
                        }
                        j = j + 1;
                    }
                    i = i + 1;
                }
                Ok(l)
            },
            None => {
                proof {
                    assert forall|y: ExtensionList| y.encodable() implies #[trigger] y.enc() != data@ by {
                        if y.enc() == data@ {
                            assert(data@.subrange(0, n as int) =~= data@);
                            assert(prefix_of(y.enc(), data@.subrange(0, n as int)));
                        }
                    }
                }
                Err(crate::extension::ExtensionError::DeserializationError)
            },
        }
    }
}


/// Per-epoch metadata of a group, recreated at every epoch.
#[derive(Clone, Debug, PartialEq, Eq)]
pub struct GroupContext {
    pub protocol_version: u16,
    pub cipher_suite: CipherSuite,
    pub group_id: Vec<u8>,
    pub epoch: u64,
    pub tree_hash: Vec<u8>,
    pub confirmed_transcript_hash: Vec<u8>,
    pub extensions: ExtensionList,
}

impl GroupContext {
    pub open spec fn as_tuple(self) -> (u16, (CipherSuite, (Vec<u8>, (u64, (Vec<u8>, (Vec<u8>, ExtensionList)))))) {
        (self.protocol_version, (self.cipher_suite, (self.group_id, (self.epoch, (self.tree_hash, (self.confirmed_transcript_hash, self.extensions))))))
    }
}

impl Codec for GroupContext {
    open spec fn enc(&self) -> Seq<u8> {
        self.as_tuple().enc()
    }

    open spec fn encodable(&self) -> bool {
        self.as_tuple().encodable()
    }

    proof fn lemma_unique(a: &Self, b: &Self, s: Seq<u8>) {
        <(u16, (CipherSuite, (Vec<u8>, (u64, (Vec<u8>, (Vec<u8>, ExtensionList))))))>::lemma_unique(&a.as_tuple(), &b.as_tuple(), s);
    }

    proof fn lemma_nonempty(a: &Self) {
        <(u16, (CipherSuite, (Vec<u8>, (u64, (Vec<u8>, (Vec<u8>, ExtensionList))))))>::lemma_nonempty(&a.as_tuple());
    }

    fn is_encodable(&self) -> (r: bool) {
        self.protocol_version.is_encodable() && self.cipher_suite.is_encodable() && self.group_id.is_encodable() && self.epoch.is_encodable() && self.tree_hash.is_encodable() && self.confirmed_transcript_hash.is_encodable() && self.extensions.is_encodable()
    }

    fn encode(&self, out: &mut Vec<u8>) {
        self.protocol_version.encode(out);
        self.cipher_suite.encode(out);
        self.group_id.encode(out);
        self.epoch.encode(out);
        self.tree_hash.encode(out);
        self.confirmed_transcript_hash.encode(out);
        self.extensions.encode(out);
        assert(out@ =~= old(out)@ + self.enc());
    }

    fn decode(data: &[u8], pos: usize, end: usize) -> (r: Option<(Self, usize)>) {
        match <(u16, (CipherSuite, (Vec<u8>, (u64, (Vec<u8>, (Vec<u8>, ExtensionList))))))>::decode(data, pos, end) {
            Some(((protocol_version, (cipher_suite, (group_id, (epoch, (tree_hash, (confirmed_transcript_hash, extensions)))))), p)) => {
                Some((GroupContext { protocol_version, cipher_suite, group_id, epoch, tree_hash, confirmed_transcript_hash, extensions }, p))
            },
            None => {
                proof {
                    assert forall|x: GroupContext| x.encodable() implies !#[trigger] prefix_of(x.enc(), data@.subrange(pos as int, end as int)) by {
                        assert(x.as_tuple().encodable());
                    }
                }
                None
            },
        }
    }
}

/// Longest group identifier.
pub const MAX_GROUP_ID_LEN: usize = 255;

impl GroupContext {
    /// The context of the next epoch: the same group with the epoch
    /// advanced, the new tree hash and the new confirmed transcript hash.
    pub fn next_epoch(self, tree_hash: Vec<u8>, confirmed_transcript_hash: Vec<u8>) -> (r: Option<GroupContext>)
        ensures
            self.epoch == u64::MAX ==> r.is_none(),
            self.epoch < u64::MAX ==> r == Some(GroupContext { epoch: (self.epoch + 1) as u64, tree_hash, confirmed_transcript_hash, ..self }),
    {
        if self.epoch == u64::MAX {
            return None;
        }
        Some(GroupContext { epoch: self.epoch + 1, tree_hash, confirmed_transcript_hash, ..self })
    }

    /// The group identifier is at most 255 bytes long.
    pub fn group_id_valid(&self) -> (r: bool)
        ensures
            r == (self.group_id@.len() <= MAX_GROUP_ID_LEN),
    {
        self.group_id.len() <= MAX_GROUP_ID_LEN
    }

    /// Read a group context from `data`, which must hold exactly one.
    pub fn from_bytes(data: &[u8]) -> (r: Option<GroupContext>)
        ensures
            match r {
                Some(c) => c.enc() == data@ && c.encodable(),
                None => forall|c: GroupContext| c.encodable() ==> #[trigger] c.enc() != data@,
            },
    {
        let n = data.len();
        match GroupContext::decode(data, 0, n) {
            Some((c, p)) => {
                assert(data@.subrange(0, n as int) =~= data@);
                if p == n {
                    Some(c)
                } else {
                    proof {
                        assert forall|y: GroupContext| y.encodable() implies #[trigger] y.enc() != data@ by {
                            if y.enc() == data@ {
                                assert(data@.subrange(0, p as int) =~= data@.subrange(0, n as int).subrange(0, p as int));
                                GroupContext::lemma_unique(&c, &y, data@);
                            }
                        }
                    }
                    None
                }
            },
            None => {
                proof {
                    assert forall|y: GroupContext| y.encodable() implies #[trigger] y.enc() != data@ by {
                        if y.enc() == data@ {
                            assert(data@.subrange(0, n as int) =~= data@);
                            assert(prefix_of(y.enc(), data@.subrange(0, n as int)));
                        }
                    }
                }
                None
            },
        }
    }

    /// The encoded context.
    pub fn to_bytes(&self) -> (r: Vec<u8>)
        requires
            self.encodable(),
        ensures
            r@ == self.enc(),
    {
        let mut out: Vec<u8> = Vec::new();
        self.encode(&mut out);
        assert(out@ =~= self.enc());
        out
    }
}


/// Version tag of the snapshot encoding written by this library.
pub const SNAPSHOT_VERSION: u16 = 1;

/// What is kept of a group between sessions.
#[derive(Clone, Debug, PartialEq, Eq)]
pub struct Snapshot {
    pub version: u16,
    pub context: GroupContext,
    pub tree: NodeVec,
    pub interim_transcript_hash: Vec<u8>,
}

impl Snapshot {
    pub open spec fn as_tuple(self) -> (u16, (GroupContext, (NodeVec, Vec<u8>))) {
        (self.version, (self.context, (self.tree, self.interim_transcript_hash)))
    }
}

impl Codec for Snapshot {
    open spec fn enc(&self) -> Seq<u8> {
        self.as_tuple().enc()
    }

    open spec fn encodable(&self) -> bool {
        self.as_tuple().encodable()
    }

    proof fn lemma_unique(a: &Self, b: &Self, s: Seq<u8>) {
        <(u16, (GroupContext, (NodeVec, Vec<u8>)))>::lemma_unique(&a.as_tuple(), &b.as_tuple(), s);
    }

    proof fn lemma_nonempty(a: &Self) {
        <(u16, (GroupContext, (NodeVec, Vec<u8>)))>::lemma_nonempty(&a.as_tuple());
    }

    fn is_encodable(&self) -> (r: bool) {
        self.version.is_encodable() && self.context.is_encodable() && self.tree.is_encodable() && self.interim_transcript_hash.is_encodable()
    }

    fn encode(&self, out: &mut Vec<u8>) {
        self.version.encode(out);
        self.context.encode(out);
        self.tree.encode(out);
        self.interim_transcript_hash.encode(out);
        assert(out@ =~= old(out)@ + self.enc());
    }

    fn decode(data: &[u8], pos: usize, end: usize) -> (r: Option<(Self, usize)>) {
        match <(u16, (GroupContext, (NodeVec, Vec<u8>)))>::decode(data, pos, end) {
            Some(((version, (context, (tree, interim_transcript_hash))), p)) => {
                Some((Snapshot { version, context, tree, interim_transcript_hash }, p))
            },
            None => {
                proof {
                    assert forall|x: Snapshot| x.encodable() implies !#[trigger] prefix_of(x.enc(), data@.subrange(pos as int, end as int)) by {
                        assert(x.as_tuple().encodable());
                    }
                }
                None
            },
        }
    }
}

/// Why stored bytes are not a snapshot this library can load.
#[derive(Debug, Clone, Copy, PartialEq, Eq, Structural)]
pub enum SnapshotError {
    /// Written under another version of the encoding.
    UnsupportedVersion(u16),
    /// Not the encoding of a snapshot.
    Malformed,
}

impl Snapshot {
    /// A snapshot in the current encoding.
    pub fn new(context: GroupContext, tree: NodeVec, interim_transcript_hash: Vec<u8>) -> (r: Snapshot)
        ensures
            r == (Snapshot { version: SNAPSHOT_VERSION, context, tree, interim_transcript_hash }),
    {
        Snapshot { version: SNAPSHOT_VERSION, context, tree, interim_transcript_hash }
    }

    /// The encoded snapshot: its version tag first.
    pub fn to_bytes(&self) -> (r: Vec<u8>)
        requires
            self.encodable(),
        ensures
            r@ == self.enc(),
    {
        let mut out: Vec<u8> = Vec::new();
        self.encode(&mut out);
        assert(out@ =~= self.enc());
        out
    }

    /// Load a snapshot: the bytes must hold exactly one snapshot, tagged
    /// with the current version.
    pub fn from_bytes(data: &[u8]) -> (r: Result<Snapshot, SnapshotError>)
        ensures
            match r {
                Ok(s) => s.enc() == data@ && s.encodable() && s.version == SNAPSHOT_VERSION,
                Err(SnapshotError::UnsupportedVersion(v)) => v != SNAPSHOT_VERSION && exists|s: Snapshot|
                    s.encodable() && #[trigger] s.enc() == data@ && s.version == v,
                Err(SnapshotError::Malformed) => forall|s: Snapshot| s.encodable() ==> #[trigger] s.enc() != data@,
            },
    {
        let n = data.len();
        match Snapshot::decode(data, 0, n) {
            Some((s, p)) => {
                assert(data@.subrange(0, n as int) =~= data@);
                if p == n {
                    if s.version != SNAPSHOT_VERSION {
                        return Err(SnapshotError::UnsupportedVersion(s.version));
                    }
                    Ok(s)
                } else {
                    proof {
                        assert forall|y: Snapshot| y.encodable() implies #[trigger] y.enc() != data@ by {
                            if y.enc() == data@ {
                                assert(data@.subrange(0, p as int) =~= data@.subrange(0, n as int).subrange(0, p as int));
                                Snapshot::lemma_unique(&s, &y, data@);
                            }
                        }
                    }
                    Err(SnapshotError::Malformed)
                }
            },
            None => {
                proof {
                    assert forall|y: Snapshot| y.encodable() implies #[trigger] y.enc() != data@ by {
                        if y.enc() == data@ {
                            assert(data@.subrange(0, n as int) =~= data@);
                            assert(prefix_of(y.enc(), data@.subrange(0, n as int)));
                        }
                    }
                }
                Err(SnapshotError::Malformed)
            },
        }
    }
}

/// Length of the reuse guard mixed into a message nonce.
pub const REUSE_GUARD_LEN: usize = 4;

/// The nonce with its first four bytes XORed with `reuse_guard`, so that a
/// key reused by mistake never meets the same nonce twice.
pub fn apply_reuse_guard(nonce: &[u8], reuse_guard: [u8; 4]) -> (r: Vec<u8>)
    ensures
        r@.len() == nonce@.len(),
        forall|i: int| 0 <= i < nonce@.len() ==> #[trigger] r@[i] == if i < REUSE_GUARD_LEN {
            nonce@[i] ^ reuse_guard@[i]
        } else {
            nonce@[i]
        },
{
    let mut r: Vec<u8> = Vec::new();
    let mut i: usize = 0;
    while i < nonce.len()
        invariant
            i <= nonce@.len(),
            r@.len() == i,
            reuse_guard@.len() == 4,
            forall|j: int| 0 <= j < i ==> #[trigger] r@[j] == if j < REUSE_GUARD_LEN {
                nonce@[j] ^ reuse_guard@[j]
            } else {
                nonce@[j]
            },
        decreases nonce@.len() - i,
    {
        let b = if i < REUSE_GUARD_LEN {
            nonce[i] ^ reuse_guard[i]
        } else {
            nonce[i]
        };
        r.push(b);
        i = i + 1;
    }
    r
}


/// Kind of content a message carries.
#[derive(Debug, Clone, Copy, PartialEq, Eq, Structural)]
pub enum ContentType {
    Application,
    Proposal,
    Commit,
}

/// Wire value of a content type.
pub open spec fn content_type_byte(t: ContentType) -> u8 {
    match t {
        ContentType::Application => 1,
        ContentType::Proposal => 2,
        ContentType::Commit => 3,
    }
}

/// The associated data under which a private message's content is
/// encrypted: group, epoch, content type and the sender's authenticated
/// data.
#[derive(Clone, Debug, PartialEq, Eq)]
pub struct ContentAad {
    pub group_id: Vec<u8>,
    pub epoch: u64,
    pub content_type: ContentType,
    pub authenticated_data: Vec<u8>,
}

impl ContentAad {
    /// The encoding: group id, epoch, content type, authenticated data.
    pub open spec fn spec_encoding(self) -> Seq<u8> {
        self.group_id.enc() + self.epoch.enc() + seq![content_type_byte(self.content_type)] + self.authenticated_data.enc()
    }

    pub open spec fn encodable(self) -> bool {
        self.group_id.encodable() && self.authenticated_data.encodable()
    }

    pub fn to_bytes(&self) -> (r: Vec<u8>)
        requires
            self.encodable(),
        ensures
            r@ == self.spec_encoding(),
    {
        let mut out: Vec<u8> = Vec::new();
        self.group_id.encode(&mut out);
        self.epoch.encode(&mut out);
        let t: u8 = match self.content_type {
            ContentType::Application => 1,
            ContentType::Proposal => 2,
            ContentType::Commit => 3,
        };
        out.push(t);
        self.authenticated_data.encode(&mut out);
        assert(out@ =~= self.spec_encoding());
        out
    }
}

/// The content type is bound into the associated data: two messages of
/// different content types never have the same associated data, so content
/// decrypted under the wrong type fails authentication.
pub proof fn lemma_aad_binds_content_type(a: ContentAad, b: ContentAad)
    requires
        a.encodable(),
        b.encodable(),
        a.content_type != b.content_type,
    ensures
        a.spec_encoding() != b.spec_encoding(),
{
    if a.spec_encoding() == b.spec_encoding() {
        let s = a.spec_encoding();
        let ta = seq![content_type_byte(a.content_type)] + a.authenticated_data.enc();
        let tb = seq![content_type_byte(b.content_type)] + b.authenticated_data.enc();
        assert(s =~= a.group_id.enc() + (a.epoch.enc() + ta));
        assert(s =~= b.group_id.enc() + (b.epoch.enc() + tb));
        assert(s.subrange(0, s.len() as int) =~= s);
        crate::codec::lemma_prefix_split(a.group_id.enc(), a.epoch.enc() + ta, s);
        crate::codec::lemma_prefix_split(b.group_id.enc(), b.epoch.enc() + tb, s);
        <Vec<u8>>::lemma_unique(&a.group_id, &b.group_id, s);
        let k = a.group_id.enc().len() as int;
        let rest = s.subrange(k, s.len() as int);
        assert(rest =~= a.epoch.enc() + ta);
        assert(rest =~= b.epoch.enc() + tb);
        assert(rest[8] == ta[0]);
        assert(rest[8] == tb[0]);
    }
}

} // verus!
