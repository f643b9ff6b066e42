//! Ratchet tree nodes and the wire encoding of nodes and leaf contents.
use vstd::prelude::*;

use crate::codec::{prefix_of, Codec};
use crate::proposal::{LeafNode, LeafNodeSource, Lifetime, SigningIdentity};

verus! {

/// An inner node of the ratchet tree.
#[derive(Clone, Debug, PartialEq, Eq)]
pub struct ParentNode {
    pub public_key: Vec<u8>,
    pub parent_hash: Vec<u8>,
    /// Leaves added below this node since it was last refreshed, increasing.
    pub unmerged_leaves: Vec<u32>,
}

/// A non-blank node slot.
#[derive(Clone, Debug, PartialEq, Eq)]
pub enum Node {
    Leaf(LeafNode),
    Parent(ParentNode),
}

/// The node slots of a ratchet tree, `None` for a blank slot.
pub type NodeVec = Vec<Option<Node>>;

impl SigningIdentity {
    pub open spec fn as_tuple(self) -> (Vec<u8>, (u16, Vec<u8>)) {
        (self.signature_key, (self.credential_type, self.credential_data))
    }
}

impl Codec for SigningIdentity {
    open spec fn enc(&self) -> Seq<u8> {
        self.as_tuple().enc()
    }

    open spec fn encodable(&self) -> bool {
        self.as_tuple().encodable()
    }

    proof fn lemma_unique(a: &Self, b: &Self, s: Seq<u8>) {
        <(Vec<u8>, (u16, Vec<u8>))>::lemma_unique(&a.as_tuple(), &b.as_tuple(), s);
    }

    proof fn lemma_nonempty(a: &Self) {
        <(Vec<u8>, (u16, Vec<u8>))>::lemma_nonempty(&a.as_tuple());
    }

    fn is_encodable(&self) -> (r: bool) {
        self.signature_key.is_encodable() && self.credential_type.is_encodable() && self.credential_data.is_encodable()
    }

    fn encode(&self, out: &mut Vec<u8>) {
        self.signature_key.encode(out);
        self.credential_type.encode(out);
        self.credential_data.encode(out);
        assert(out@ =~= old(out)@ + self.enc());
    }

    fn decode(data: &[u8], pos: usize, end: usize) -> (r: Option<(Self, usize)>) {
        match <(Vec<u8>, (u16, Vec<u8>))>::decode(data, pos, end) {
            Some(((signature_key, (credential_type, credential_data)), p)) => {
                Some((SigningIdentity { signature_key, credential_type, credential_data }, p))
            },
            None => {
                proof {
                    assert forall|x: SigningIdentity| x.encodable() implies !#[trigger] prefix_of(x.enc(), data@.subrange(pos as int, end as int)) by {
                        assert(x.as_tuple().encodable());
                    }
                }
                None
            },
        }
    }
}

pub const SOURCE_KEY_PACKAGE: u8 = 1;
pub const SOURCE_UPDATE: u8 = 2;
pub const SOURCE_COMMIT: u8 = 3;

impl Codec for LeafNodeSource {
    open spec fn enc(&self) -> Seq<u8> {
        match self {
            LeafNodeSource::KeyPackage(l) => seq![SOURCE_KEY_PACKAGE] + (l.not_before, l.not_after).enc(),
            LeafNodeSource::Update => seq![SOURCE_UPDATE],
            LeafNodeSource::Commit(h) => seq![SOURCE_COMMIT] + h.enc(),
        }
    }

    open spec fn encodable(&self) -> bool {
        match self {
            LeafNodeSource::Commit(h) => h.encodable(),
            _ => true,
        }
    }

    proof fn lemma_unique(a: &Self, b: &Self, s: Seq<u8>) {
        assert(a.enc()[0] == s[0]);
        assert(b.enc()[0] == s[0]);
        let t = s.subrange(1, s.len() as int);
        match (a, b) {
            (LeafNodeSource::KeyPackage(x), LeafNodeSource::KeyPackage(y)) => {
                assert(t.subrange(0, (a.enc().len() - 1) as int) =~= a.enc().subrange(1, a.enc().len() as int));
                assert(t.subrange(0, (b.enc().len() - 1) as int) =~= b.enc().subrange(1, b.enc().len() as int));
                assert(a.enc().subrange(1, a.enc().len() as int) =~= (x.not_before, x.not_after).enc());
                assert(b.enc().subrange(1, b.enc().len() as int) =~= (y.not_before, y.not_after).enc());
                <(u64, u64)>::lemma_unique(&(x.not_before, x.not_after), &(y.not_before, y.not_after), t);
            },
            (LeafNodeSource::Commit(x), LeafNodeSource::Commit(y)) => {
                assert(t.subrange(0, (a.enc().len() - 1) as int) =~= a.enc().subrange(1, a.enc().len() as int));
                assert(t.subrange(0, (b.enc().len() - 1) as int) =~= b.enc().subrange(1, b.enc().len() as int));
                assert(a.enc().subrange(1, a.enc().len() as int) =~= x.enc());
                assert(b.enc().subrange(1, b.enc().len() as int) =~= y.enc());
                <Vec<u8>>::lemma_unique(x, y, t);
            },
            _ => {},
        }
    }

    proof fn lemma_nonempty(a: &Self) {
    }

    fn is_encodable(&self) -> (r: bool) {
        match self {
            LeafNodeSource::Commit(h) => h.is_encodable(),
            _ => true,
        }
    }

    fn encode(&self, out: &mut Vec<u8>) {
        match self {
            LeafNodeSource::KeyPackage(l) => {
                out.push(SOURCE_KEY_PACKAGE);
                l.not_before.encode(out);
                l.not_after.encode(out);
            },
            LeafNodeSource::Update => {
                out.push(SOURCE_UPDATE);
            },
            LeafNodeSource::Commit(h) => {
                out.push(SOURCE_COMMIT);
                h.encode(out);
            },
        }
        assert(out@ =~= old(out)@ + self.enc());
    }

    fn decode(data: &[u8], pos: usize, end: usize) -> (r: Option<(Self, usize)>) {
        let ghost s = data@.subrange(pos as int, end as int);
        if pos >= end {
            return None;
        }
        let tag = data[pos];
        let ghost t = data@.subrange(pos + 1, end as int);
        proof {
            assert forall|x: LeafNodeSource| prefix_of(x.enc(), s) implies x.enc()[0] == tag
                && prefix_of(x.enc().subrange(1, x.enc().len() as int), t) by {
                assert(x.enc()[0] == s[0]);
                assert(t.subrange(0, x.enc().len() - 1) =~= x.enc().subrange(1, x.enc().len() as int));
            }
        }
        if tag == SOURCE_KEY_PACKAGE {
            match <(u64, u64)>::decode(data, pos + 1, end) {
                Some(((not_before, not_after), p)) => {
                    let r = LeafNodeSource::KeyPackage(Lifetime { not_before, not_after });
                    assert(data@.subrange(pos as int, p as int) =~= r.enc());
                    Some((r, p))
                },
                None => {
                    proof {
                        assert forall|x: LeafNodeSource| x.encodable() implies !#[trigger] prefix_of(x.enc(), s) by {
                            if prefix_of(x.enc(), s) {
                                if let LeafNodeSource::KeyPackage(l) = x {
                                    assert(x.enc().subrange(1, x.enc().len() as int) =~= (l.not_before, l.not_after).enc());
                                }
                            }
                        }
                    }
                    None
                },
            }
        } else if tag == SOURCE_UPDATE {
            assert(data@.subrange(pos as int, pos + 1) =~= LeafNodeSource::Update.enc());
            Some((LeafNodeSource::Update, pos + 1))
        } else if tag == SOURCE_COMMIT {
            match <Vec<u8>>::decode(data, pos + 1, end) {
                Some((h, p)) => {
                    let r = LeafNodeSource::Commit(h);
                    assert(data@.subrange(pos as int, p as int) =~= seq![SOURCE_COMMIT] + data@.subrange(pos + 1, p as int));
                    Some((r, p))
                },
                None => {
                    proof {
                        assert forall|x: LeafNodeSource| x.encodable() implies !#[trigger] prefix_of(x.enc(), s) by {
                            if prefix_of(x.enc(), s) {
                                if let LeafNodeSource::Commit(h) = x {
                                    assert(x.enc().subrange(1, x.enc().len() as int) =~= h.enc());
                                }
                            }
                        }
                    }
                    None
                },
            }
        } else {
            None
        }
    }
}


impl LeafNode {
    pub open spec fn as_tuple(self) -> (Vec<u8>, (SigningIdentity, (LeafNodeSource, Vec<u8>))) {
        (self.public_key, (self.signing_identity, (self.leaf_node_source, self.signature)))
    }
}

impl Codec for LeafNode {
    open spec fn enc(&self) -> Seq<u8> {
        self.as_tuple().enc()
    }

    open spec fn encodable(&self) -> bool {
        self.as_tuple().encodable()
    }

    proof fn lemma_unique(a: &Self, b: &Self, s: Seq<u8>) {
        <(Vec<u8>, (SigningIdentity, (LeafNodeSource, Vec<u8>)))>::lemma_unique(&a.as_tuple(), &b.as_tuple(), s);
    }

    proof fn lemma_nonempty(a: &Self) {
        <(Vec<u8>, (SigningIdentity, (LeafNodeSource, Vec<u8>)))>::lemma_nonempty(&a.as_tuple());
    }

    fn is_encodable(&self) -> (r: bool) {
        self.public_key.is_encodable() && self.signing_identity.is_encodable() && self.leaf_node_source.is_encodable() && self.signature.is_encodable()
    }

    fn encode(&self, out: &mut Vec<u8>) {
        self.public_key.encode(out);
        self.signing_identity.encode(out);
        self.leaf_node_source.encode(out);
        self.signature.encode(out);
        assert(out@ =~= old(out)@ + self.enc());
    }

    fn decode(data: &[u8], pos: usize, end: usize) -> (r: Option<(Self, usize)>) {
        match <(Vec<u8>, (SigningIdentity, (LeafNodeSource, Vec<u8>)))>::decode(data, pos, end) {
            Some(((public_key, (signing_identity, (leaf_node_source, signature))), p)) => {
                Some((LeafNode { public_key, signing_identity, leaf_node_source, signature }, p))
            },
            None => {
                proof {
                    assert forall|x: LeafNode| x.encodable() implies !#[trigger] prefix_of(x.enc(), data@.subrange(pos as int, end as int)) by {
                        assert(x.as_tuple().encodable());
                    }
                }
                None
            },
        }
    }
}

impl ParentNode {
    pub open spec fn as_tuple(self) -> (Vec<u8>, (Vec<u8>, Vec<u32>)) {
        (self.public_key, (self.parent_hash, self.unmerged_leaves))
    }
}

impl Codec for ParentNode {
    open spec fn enc(&self) -> Seq<u8> {
        self.as_tuple().enc()
    }

    open spec fn encodable(&self) -> bool {
        self.as_tuple().encodable()
    }

    proof fn lemma_unique(a: &Self, b: &Self, s: Seq<u8>) {
        <(Vec<u8>, (Vec<u8>, Vec<u32>))>::lemma_unique(&a.as_tuple(), &b.as_tuple(), s);
    }

    proof fn lemma_nonempty(a: &Self) {
        <(Vec<u8>, (Vec<u8>, Vec<u32>))>::lemma_nonempty(&a.as_tuple());
    }

    fn is_encodable(&self) -> (r: bool) {
        self.public_key.is_encodable() && self.parent_hash.is_encodable() && self.unmerged_leaves.is_encodable()
    }

    fn encode(&self, out: &mut Vec<u8>) {
        self.public_key.encode(out);
        self.parent_hash.encode(out);
        self.unmerged_leaves.encode(out);
        assert(out@ =~= old(out)@ + self.enc());
    }

    fn decode(data: &[u8], pos: usize, end: usize) -> (r: Option<(Self, usize)>) {
        match <(Vec<u8>, (Vec<u8>, Vec<u32>))>::decode(data, pos, end) {
            Some(((public_key, (parent_hash, unmerged_leaves)), p)) => {
                Some((ParentNode { public_key, parent_hash, unmerged_leaves }, p))
            },
            None => {
                proof {
                    assert forall|x: ParentNode| x.encodable() implies !#[trigger] prefix_of(x.enc(), data@.subrange(pos as int, end as int)) by {
                        assert(x.as_tuple().encodable());
                    }
                }
                None
            },
        }
    }
}

pub const NODE_LEAF: u8 = 1;
pub const NODE_PARENT: u8 = 2;

impl Codec for Node {
    open spec fn enc(&self) -> Seq<u8> {
        match self {
            Node::Leaf(l) => seq![NODE_LEAF] + l.enc(),
            Node::Parent(p) => seq![NODE_PARENT] + p.enc(),
        }
    }

    open spec fn encodable(&self) -> bool {
        match self {
            Node::Leaf(l) => l.encodable(),
            Node::Parent(p) => p.encodable(),
        }
    }

    proof fn lemma_unique(a: &Self, b: &Self, s: Seq<u8>) {
        assert(a.enc()[0] == s[0]);
        assert(b.enc()[0] == s[0]);
        let t = s.subrange(1, s.len() as int);
        assert(t.subrange(0, (a.enc().len() - 1) as int) =~= a.enc().subrange(1, a.enc().len() as int));
        assert(t.subrange(0, (b.enc().len() - 1) as int) =~= b.enc().subrange(1, b.enc().len() as int));
        match (a, b) {
            (Node::Leaf(x), Node::Leaf(y)) => {
                assert(a.enc().subrange(1, a.enc().len() as int) =~= x.enc());
                assert(b.enc().subrange(1, b.enc().len() as int) =~= y.enc());
                LeafNode::lemma_unique(x, y, t);
            },
            (Node::Parent(x), Node::Parent(y)) => {
                assert(a.enc().subrange(1, a.enc().len() as int) =~= x.enc());
                assert(b.enc().subrange(1, b.enc().len() as int) =~= y.enc());
                ParentNode::lemma_unique(x, y, t);
            },
            _ => {},
        }
    }

    proof fn lemma_nonempty(a: &Self) {
    }

    fn is_encodable(&self) -> (r: bool) {
        match self {
            Node::Leaf(l) => l.is_encodable(),
            Node::Parent(p) => p.is_encodable(),
        }
    }

    fn encode(&self, out: &mut Vec<u8>) {
        match self {
            Node::Leaf(l) => {
                out.push(NODE_LEAF);
                l.encode(out);
            },
            Node::Parent(p) => {
                out.push(NODE_PARENT);
                p.encode(out);
            },
        }
        assert(out@ =~= old(out)@ + self.enc());
    }

    #[verifier::rlimit(40)]
    fn decode(data: &[u8], pos: usize, end: usize) -> (r: Option<(Self, usize)>) {
        let ghost s = data@.subrange(pos as int, end as int);
        if pos >= end {
            return None;
        }
        let tag = data[pos];
        let ghost t = data@.subrange(pos + 1, end as int);
        proof {
            assert forall|x: Node| prefix_of(x.enc(), s) implies x.enc()[0] == tag
                && prefix_of(x.enc().subrange(1, x.enc().len() as int), t) by {
                assert(x.enc()[0] == s[0]);
                assert(t.subrange(0, x.enc().len() - 1) =~= x.enc().subrange(1, x.enc().len() as int));
            }
        }
        if tag == NODE_LEAF {
            match LeafNode::decode(data, pos + 1, end) {
                Some((l, p)) => {
                    assert(data@.subrange(pos as int, p as int) =~= seq![NODE_LEAF] + data@.subrange(pos + 1, p as int));
                    Some((Node::Leaf(l), p))
                },
                None => {
                    proof {
                        assert forall|x: Node| x.encodable() implies !#[trigger] prefix_of(x.enc(), s) by {
                            if prefix_of(x.enc(), s) {
                                if let Node::Leaf(l) = x {
                                    assert(x.enc().subrange(1, x.enc().len() as int) =~= l.enc());
                                }
                            }
                        }
                    }
                    None
                },
            }
        } else if tag == NODE_PARENT {
            match ParentNode::decode(data, pos + 1, end) {
                Some((pn, p)) => {
                    assert(data@.subrange(pos as int, p as int) =~= seq![NODE_PARENT] + data@.subrange(pos + 1, p as int));
                    Some((Node::Parent(pn), p))
                },
                None => {
                    proof {
                        assert forall|x: Node| x.encodable() implies !#[trigger] prefix_of(x.enc(), s) by {
                            if prefix_of(x.enc(), s) {
                                if let Node::Parent(pn) = x {
                                    assert(x.enc().subrange(1, x.enc().len() as int) =~= pn.enc());
                                }
                            }
                        }
                    }
                    None
                },
            }
        } else {
            None
        }
    }
}

} // verus!
