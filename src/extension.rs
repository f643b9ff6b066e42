use vstd::prelude::*;

use crate::codec::{prefix_of, Codec};
use crate::node::NodeVec;
use crate::proposal::{ProposalType, SigningIdentity};

verus! {

/// Identifier of an extension type.
pub type ExtensionType = u16;

/// Identifier of a credential type.
pub type CredentialType = u16;

pub const APPLICATION_ID_EXT_ID: ExtensionType = 1;
pub const RATCHET_TREE_EXT_ID: ExtensionType = 2;
pub const REQUIRED_CAPABILITIES_EXT_ID: ExtensionType = 3;
pub const EXTERNAL_PUB_EXT_ID: ExtensionType = 4;
pub const EXTERNAL_SENDERS_EXT_ID: ExtensionType = 5;

/// Why an extension could not be read.
#[derive(Debug, Clone, Copy, PartialEq, Eq, Structural)]
pub enum ExtensionError {
    /// The extension is of another type than the one asked for.
    IncorrectType { expected: ExtensionType, found: ExtensionType },
    /// The content is not the encoding of a value of the type asked for.
    DeserializationError,
    /// An encoded extension list names a type twice.
    DuplicateExtension(ExtensionType),
    /// The value is too long to encode.
    SerializationError,
}

/// An extension: a type identifier and its opaque encoded content.
#[derive(Clone, Debug, PartialEq, Eq)]
pub struct Extension {
    pub extension_type: ExtensionType,
    pub extension_data: Vec<u8>,
}

impl Extension {
    pub fn new(extension_type: ExtensionType, extension_data: Vec<u8>) -> (r: Extension)
        ensures
            r.extension_type == extension_type,
            r.extension_data@ == extension_data@,
    {
        Extension { extension_type, extension_data }
    }
}

/// Index of the first extension of type `t` in `s`, or `s.len()` if none.
pub open spec fn position_of_type(s: Seq<Extension>, t: ExtensionType) -> int
    decreases s.len(),
{
    if s.len() == 0 {
        0
    } else if s[0].extension_type == t {
        0
    } else {
        1 + position_of_type(s.drop_first(), t)
    }
}

/// An ordered list of extensions in which each type occurs at most once.
#[derive(Clone, Debug, PartialEq, Eq)]
pub struct ExtensionList {
    pub extensions: Vec<Extension>,
}

impl ExtensionList {
    /// The extensions, in order.
    pub open spec fn spec_list(&self) -> Seq<Extension> {
        self.extensions@
    }

    /// No two extensions share a type.
    pub open spec fn wf(&self) -> bool {
        forall|i: int, j: int|
            0 <= i < j < self.spec_list().len() ==> #[trigger] self.spec_list()[i].extension_type
                != #[trigger] self.spec_list()[j].extension_type
    }

    /// Whether an extension of type `t` is present.
    pub open spec fn has_spec(&self, t: ExtensionType) -> bool {
        exists|i: int| 0 <= i < self.spec_list().len() && #[trigger] self.spec_list()[i].extension_type == t
    }

    pub fn new() -> (r: ExtensionList)
        ensures
            r.spec_list().len() == 0,
            r.wf(),
    {
        ExtensionList { extensions: Vec::new() }
    }

    /// Number of extensions in the list.
    pub fn len(&self) -> (r: usize)
        ensures
            r == self.spec_list().len(),
    {
        self.extensions.len()
    }

    pub fn is_empty(&self) -> (r: bool)
        ensures
            r == (self.spec_list().len() == 0),
    {
        self.extensions.len() == 0
    }

    /// Position of the extension of type `t`, if present.
    pub fn find(&self, t: ExtensionType) -> (r: Option<usize>)
        ensures
            match r {
                Some(i) => i < self.spec_list().len() && self.spec_list()[i as int].extension_type == t
                    && forall|j: int| 0 <= j < i ==> #[trigger] self.spec_list()[j].extension_type != t,
                None => !self.has_spec(t),
            },
    {
        let mut i: usize = 0;
        while i < self.extensions.len()
            invariant
                i <= self.spec_list().len(),
                forall|j: int| 0 <= j < i ==> #[trigger] self.spec_list()[j].extension_type != t,
            decreases self.spec_list().len() - i,
        {
            if self.extensions[i].extension_type == t {
                return Some(i);
            }
            i = i + 1;
        }
        None
    }

    /// Whether an extension of type `t` is present.
    pub fn has_extension(&self, t: ExtensionType) -> (r: bool)
        ensures
            r == self.has_spec(t),
    {
        self.find(t).is_some()
    }

    /// The extension of type `t`, if present.
    pub fn get(&self, t: ExtensionType) -> (r: Option<&Extension>)
        ensures
            match r {
                Some(e) => e.extension_type == t && exists|i: int|
                    0 <= i < self.spec_list().len() && self.spec_list()[i] == *e,
                None => !self.has_spec(t),
            },
    {
        match self.find(t) {
            Some(i) => Some(&self.extensions[i]),
            None => None,
        }
    }

    /// Insert `ext`, replacing the extension of the same type if there is one
    /// (in place), or appending it otherwise.
    pub fn set(&mut self, ext: Extension)
        requires
            old(self).wf(),
        ensures
            final(self).wf(),
            old(self).has_spec(ext.extension_type) ==> exists|i: int|
                0 <= i < old(self).spec_list().len()
                    && old(self).spec_list()[i].extension_type == ext.extension_type
                    && final(self).spec_list() == old(self).spec_list().update(i, ext),
            !old(self).has_spec(ext.extension_type) ==> final(self).spec_list()
                == old(self).spec_list().push(ext),
    {
        let t = ext.extension_type;
        match self.find(t) {
            Some(i) => {
                self.extensions.set(i, ext);
                assert(self.spec_list() == old(self).spec_list().update(i as int, ext));
            },
            None => {
                self.extensions.push(ext);
                assert(self.spec_list() == old(self).spec_list().push(ext));
                assert forall|i: int, j: int| 0 <= i < j < self.spec_list().len() implies
                    #[trigger] self.spec_list()[i].extension_type != #[trigger] self.spec_list()[j].extension_type by {
                    if j == self.spec_list().len() - 1 {
                        assert(old(self).spec_list()[i].extension_type != t);
                    }
                }
            },
        }
    }
}


/// An extension type with a typed content.
pub trait MlsExtension: Codec {
    spec fn spec_extension_type() -> ExtensionType;

    fn extension_type() -> (r: ExtensionType)
        ensures
            r == Self::spec_extension_type(),
    ;

    /// This value as an extension of its type.
    fn into_extension(&self) -> (r: Result<Extension, ExtensionError>)
        ensures
            self.encodable() ==> (r matches Ok(e) && e.extension_type == Self::spec_extension_type() && e.extension_data@ == self.enc()),
            !self.encodable() ==> r == Err::<Extension, ExtensionError>(ExtensionError::SerializationError),
    {
        if !self.is_encodable() {
            return Err(ExtensionError::SerializationError);
        }
        let mut data: Vec<u8> = Vec::new();
        self.encode(&mut data);
        assert(data@ =~= self.enc());
        Ok(Extension { extension_type: Self::extension_type(), extension_data: data })
    }

    /// Read a value of this type from an extension.
    fn from_extension(ext: &Extension) -> (r: Result<Self, ExtensionError>)
        ensures
            match r {
                Ok(x) => ext.extension_type == Self::spec_extension_type() && x.enc() == ext.extension_data@ && x.encodable(),
                Err(e) => if ext.extension_type != Self::spec_extension_type() {
                    e == ExtensionError::IncorrectType { expected: Self::spec_extension_type(), found: ext.extension_type }
                } else {
                    e == ExtensionError::DeserializationError && forall|x: Self|
                        x.encodable() ==> #[trigger] x.enc() != ext.extension_data@
                },
            },
    {
        let expected = Self::extension_type();
        if ext.extension_type != expected {
            return Err(ExtensionError::IncorrectType { expected, found: ext.extension_type });
        }
        let data = ext.extension_data.as_slice();
        let n = data.len();
        match Self::decode(data, 0, n) {
            Some((x, p)) => {
                if p == n {
                    assert(data@.subrange(0, n as int) =~= data@);
                    Ok(x)
                } else {
                    proof {
                        assert forall|y: Self| y.encodable() implies #[trigger] y.enc() != ext.extension_data@ by {
                            if y.enc() == ext.extension_data@ {
                                assert(data@.subrange(0, n as int) =~= data@);
                                assert(data@.subrange(0, p as int) =~= data@.subrange(0, n as int).subrange(0, p as int));
                                Self::lemma_unique(&x, &y, data@);
                            }
                        }
                    }
                    Err(ExtensionError::DeserializationError)
                }
            },
            None => {
                proof {
                    assert forall|y: Self| y.encodable() implies #[trigger] y.enc() != ext.extension_data@ by {
                        if y.enc() == ext.extension_data@ {
                            assert(data@.subrange(0, n as int) =~= data@);
                            assert(prefix_of(y.enc(), data@.subrange(0, n as int)));
                        }
                    }
                }
                Err(ExtensionError::DeserializationError)
            },
        }
    }
}

impl ExtensionList {
    /// Store `ext` under its type, replacing an extension of that type.
    pub fn set_from<T: MlsExtension>(&mut self, ext: T) -> (r: Result<(), ExtensionError>)
        requires
            old(self).wf(),
        ensures
            final(self).wf(),
            !ext.encodable() ==> r == Err::<(), ExtensionError>(ExtensionError::SerializationError)
                && final(self).spec_list() == old(self).spec_list(),
            ext.encodable() ==> r is Ok,
            ext.encodable() && old(self).has_spec(T::spec_extension_type()) ==> exists|i: int|
                0 <= i < old(self).spec_list().len()
                    && old(self).spec_list()[i].extension_type == T::spec_extension_type()
                    && final(self).spec_list().len() == old(self).spec_list().len()
                    && final(self).spec_list()[i].extension_data@ == ext.enc()
                    && final(self).spec_list()[i].extension_type == T::spec_extension_type()
                    && forall|j: int| 0 <= j < old(self).spec_list().len() && j != i ==> #[trigger] final(self).spec_list()[j] == old(self).spec_list()[j],
            ext.encodable() && !old(self).has_spec(T::spec_extension_type()) ==> final(self).spec_list().len() == old(self).spec_list().len() + 1
                && final(self).spec_list().last().extension_type == T::spec_extension_type()
                && final(self).spec_list().last().extension_data@ == ext.enc()
                && forall|j: int| 0 <= j < old(self).spec_list().len() ==> #[trigger] final(self).spec_list()[j] == old(self).spec_list()[j],
    {
        let e = ext.into_extension();
        match e {
            Ok(e) => {
                self.set(e);
                Ok(())
            },
            Err(err) => Err(err),
        }
    }

    /// The extension of type `T`, read as a `T`, if the list holds one.
    pub fn get_as<T: MlsExtension>(&self) -> (r: Result<Option<T>, ExtensionError>)
        ensures
            !self.has_spec(T::spec_extension_type()) ==> r == Ok::<Option<T>, ExtensionError>(None),
            match r {
                Ok(Some(x)) => x.encodable() && exists|i: int| 0 <= i < self.spec_list().len()
                    && self.spec_list()[i].extension_type == T::spec_extension_type()
                    && #[trigger] self.spec_list()[i].extension_data@ == x.enc(),
                Ok(None) => !self.has_spec(T::spec_extension_type()),
                Err(e) => e == ExtensionError::DeserializationError && exists|i: int| 0 <= i < self.spec_list().len()
                    && self.spec_list()[i].extension_type == T::spec_extension_type()
                    && forall|x: T| x.encodable() ==> #[trigger] x.enc() != self.spec_list()[i].extension_data@,
            },
    {
        match self.get(T::extension_type()) {
            Some(e) => match T::from_extension(e) {
                Ok(x) => Ok(Some(x)),
                Err(err) => Err(err),
            },
            None => Ok(None),
        }
    }
}

/// Application-defined identifier of the group.
#[derive(Clone, Debug, PartialEq, Eq)]
pub struct ApplicationIdExt {
    pub identifier: Vec<u8>,
}

/// The ratchet tree, sent alongside a welcome or group info.
#[derive(Clone, Debug, PartialEq, Eq)]
pub struct RatchetTreeExt {
    pub tree_data: NodeVec,
}

/// Extension, proposal and credential types every member must support.
#[derive(Clone, Debug, PartialEq, Eq, Default)]
pub struct RequiredCapabilitiesExt {
    pub extensions: Vec<ExtensionType>,
    pub proposals: Vec<ProposalType>,
    pub credentials: Vec<CredentialType>,
}

/// Public key for external commits.
#[derive(Clone, Debug, PartialEq, Eq)]
pub struct ExternalPubExt {
    pub external_pub: Vec<u8>,
}

/// Identities allowed to send proposals from outside the group.
#[derive(Clone, Debug, PartialEq, Eq)]
pub struct ExternalSendersExt {
    pub allowed_senders: Vec<SigningIdentity>,
}

/// Validation of signing identities, supplied by the application.
pub trait IdentityProvider {
    type Error;

    /// Whether the provider accepts `identity` at `timestamp`.
    closed spec fn spec_valid(&self, identity: SigningIdentity, timestamp: Option<u64>) -> bool {
        arbitrary()
    }

    /// Check `identity`, at `timestamp` (seconds since the Unix epoch) if given.
    fn validate(&self, identity: &SigningIdentity, timestamp: Option<u64>) -> (r: Result<(), Self::Error>)
        ensures
            r is Ok == self.spec_valid(*identity, timestamp),
    ;
}

impl ExternalSendersExt {
    pub fn new(allowed_senders: Vec<SigningIdentity>) -> (r: Self)
        ensures
            r.allowed_senders == allowed_senders,
    {
        ExternalSendersExt { allowed_senders }
    }

    /// Validate every allowed sender with `provider`, in order, stopping at
    /// the first error.
    pub fn verify_all<I: IdentityProvider>(&self, provider: &I, timestamp: Option<u64>) -> (r: Result<(), I::Error>)
        ensures
            r is Ok <==> forall|i: int| 0 <= i < self.allowed_senders@.len()
                ==> provider.spec_valid(#[trigger] self.allowed_senders@[i], timestamp),
            r is Err ==> exists|i: int| 0 <= i < self.allowed_senders@.len()
                && !provider.spec_valid(#[trigger] self.allowed_senders@[i], timestamp)
                && forall|j: int| 0 <= j < i ==> provider.spec_valid(#[trigger] self.allowed_senders@[j], timestamp),
    {
        let mut i: usize = 0;
        while i < self.allowed_senders.len()
            invariant
                i <= self.allowed_senders@.len(),
                forall|j: int| 0 <= j < i ==> provider.spec_valid(#[trigger] self.allowed_senders@[j], timestamp),
            decreases self.allowed_senders@.len() - i,
        {
            match provider.validate(&self.allowed_senders[i], timestamp) {
                Ok(()) => {},
                Err(e) => {
                    assert(!provider.spec_valid(self.allowed_senders@[i as int], timestamp));
                    return Err(e);
                },
            }
            i = i + 1;
        }
        Ok(())
    }
}


impl ApplicationIdExt {
    pub open spec fn as_tuple(self) -> Vec<u8> {
        self.identifier
    }
}

impl Codec for ApplicationIdExt {
    open spec fn enc(&self) -> Seq<u8> {
        self.as_tuple().enc()
    }

    open spec fn encodable(&self) -> bool {
        self.as_tuple().encodable()
    }

    proof fn lemma_unique(a: &Self, b: &Self, s: Seq<u8>) {
        <Vec<u8>>::lemma_unique(&a.as_tuple(), &b.as_tuple(), s);
    }

    proof fn lemma_nonempty(a: &Self) {
        <Vec<u8>>::lemma_nonempty(&a.as_tuple());
    }

    fn is_encodable(&self) -> (r: bool) {
        self.identifier.is_encodable()
    }

    fn encode(&self, out: &mut Vec<u8>) {
        self.identifier.encode(out);
        assert(out@ =~= old(out)@ + self.enc());
    }

    fn decode(data: &[u8], pos: usize, end: usize) -> (r: Option<(Self, usize)>) {
        match <Vec<u8>>::decode(data, pos, end) {
            Some((identifier, p)) => {
                Some((ApplicationIdExt { identifier }, p))
            },
            None => {
                proof {
                    assert forall|x: ApplicationIdExt| x.encodable() implies !#[trigger] prefix_of(x.enc(), data@.subrange(pos as int, end as int)) by {
                        assert(x.as_tuple().encodable());
                    }
                }
                None
            },
        }
    }
}

impl MlsExtension for ApplicationIdExt {
    open spec fn spec_extension_type() -> ExtensionType {
        APPLICATION_ID_EXT_ID
    }

    fn extension_type() -> (r: ExtensionType) {
        APPLICATION_ID_EXT_ID
    }
}

impl RatchetTreeExt {
    pub open spec fn as_tuple(self) -> NodeVec {
        self.tree_data
    }
}

impl Codec for RatchetTreeExt {
    open spec fn enc(&self) -> Seq<u8> {
        self.as_tuple().enc()
    }

    open spec fn encodable(&self) -> bool {
        self.as_tuple().encodable()
    }

    proof fn lemma_unique(a: &Self, b: &Self, s: Seq<u8>) {
        <NodeVec>::lemma_unique(&a.as_tuple(), &b.as_tuple(), s);
    }

    proof fn lemma_nonempty(a: &Self) {
        <NodeVec>::lemma_nonempty(&a.as_tuple());
    }

    fn is_encodable(&self) -> (r: bool) {
        self.tree_data.is_encodable()
    }

    fn encode(&self, out: &mut Vec<u8>) {
        self.tree_data.encode(out);
        assert(out@ =~= old(out)@ + self.enc());
    }

    fn decode(data: &[u8], pos: usize, end: usize) -> (r: Option<(Self, usize)>) {
        match <NodeVec>::decode(data, pos, end) {
            Some((tree_data, p)) => {
                Some((RatchetTreeExt { tree_data }, p))
            },
            None => {
                proof {
                    assert forall|x: RatchetTreeExt| x.encodable() implies !#[trigger] prefix_of(x.enc(), data@.subrange(pos as int, end as int)) by {
                        assert(x.as_tuple().encodable());
                    }
                }
                None
            },
        }
    }
}

impl MlsExtension for RatchetTreeExt {
    open spec fn spec_extension_type() -> ExtensionType {
        RATCHET_TREE_EXT_ID
    }

    fn extension_type() -> (r: ExtensionType) {
        RATCHET_TREE_EXT_ID
    }
}

impl RequiredCapabilitiesExt {
    pub open spec fn as_tuple(self) -> (Vec<u16>, (Vec<u16>, Vec<u16>)) {
        (self.extensions, (self.proposals, self.credentials))
    }
}

impl Codec for RequiredCapabilitiesExt {
    open spec fn enc(&self) -> Seq<u8> {
        self.as_tuple().enc()
    }

    open spec fn encodable(&self) -> bool {
        self.as_tuple().encodable()
    }

    proof fn lemma_unique(a: &Self, b: &Self, s: Seq<u8>) {
        <(Vec<u16>, (Vec<u16>, Vec<u16>))>::lemma_unique(&a.as_tuple(), &b.as_tuple(), s);
    }

    proof fn lemma_nonempty(a: &Self) {
        <(Vec<u16>, (Vec<u16>, Vec<u16>))>::lemma_nonempty(&a.as_tuple());
    }

    fn is_encodable(&self) -> (r: bool) {
        self.extensions.is_encodable() && self.proposals.is_encodable() && self.credentials.is_encodable()
    }

    fn encode(&self, out: &mut Vec<u8>) {
        self.extensions.encode(out);
        self.proposals.encode(out);
        self.credentials.encode(out);
        assert(out@ =~= old(out)@ + self.enc());
    }

    fn decode(data: &[u8], pos: usize, end: usize) -> (r: Option<(Self, usize)>) {
        match <(Vec<u16>, (Vec<u16>, Vec<u16>))>::decode(data, pos, end) {
            Some(((extensions, (proposals, credentials)), p)) => {
                Some((RequiredCapabilitiesExt { extensions, proposals, credentials }, p))
            },
            None => {
                proof {
                    assert forall|x: RequiredCapabilitiesExt| x.encodable() implies !#[trigger] prefix_of(x.enc(), data@.subrange(pos as int, end as int)) by {
                        assert(x.as_tuple().encodable());
                    }
                }
                None
            },
        }
    }
}

impl MlsExtension for RequiredCapabilitiesExt {
    open spec fn spec_extension_type() -> ExtensionType {
        REQUIRED_CAPABILITIES_EXT_ID
    }

    fn extension_type() -> (r: ExtensionType) {
        REQUIRED_CAPABILITIES_EXT_ID
    }
}

impl ExternalPubExt {
    pub open spec fn as_tuple(self) -> Vec<u8> {
        self.external_pub
    }
}

impl Codec for ExternalPubExt {
    open spec fn enc(&self) -> Seq<u8> {
        self.as_tuple().enc()
    }

    open spec fn encodable(&self) -> bool {
        self.as_tuple().encodable()
    }

    proof fn lemma_unique(a: &Self, b: &Self, s: Seq<u8>) {
        <Vec<u8>>::lemma_unique(&a.as_tuple(), &b.as_tuple(), s);
    }

    proof fn lemma_nonempty(a: &Self) {
        <Vec<u8>>::lemma_nonempty(&a.as_tuple());
    }

    fn is_encodable(&self) -> (r: bool) {
        self.external_pub.is_encodable()
    }

    fn encode(&self, out: &mut Vec<u8>) {
        self.external_pub.encode(out);
        assert(out@ =~= old(out)@ + self.enc());
    }

    fn decode(data: &[u8], pos: usize, end: usize) -> (r: Option<(Self, usize)>) {
        match <Vec<u8>>::decode(data, pos, end) {
            Some((external_pub, p)) => {
                Some((ExternalPubExt { external_pub }, p))
            },
            None => {
                proof {
                    assert forall|x: ExternalPubExt| x.encodable() implies !#[trigger] prefix_of(x.enc(), data@.subrange(pos as int, end as int)) by {
                        assert(x.as_tuple().encodable());
                    }
                }
                None
            },
        }
    }
}

impl MlsExtension for ExternalPubExt {
    open spec fn spec_extension_type() -> ExtensionType {
        EXTERNAL_PUB_EXT_ID
    }

    fn extension_type() -> (r: ExtensionType) {
        EXTERNAL_PUB_EXT_ID
    }
}

impl ExternalSendersExt {
    pub open spec fn as_tuple(self) -> Vec<SigningIdentity> {
        self.allowed_senders
    }
}

impl Codec for ExternalSendersExt {
    open spec fn enc(&self) -> Seq<u8> {
        self.as_tuple().enc()
    }

    open spec fn encodable(&self) -> bool {
        self.as_tuple().encodable()
    }

    proof fn lemma_unique(a: &Self, b: &Self, s: Seq<u8>) {
        <Vec<SigningIdentity>>::lemma_unique(&a.as_tuple(), &b.as_tuple(), s);
    }

    proof fn lemma_nonempty(a: &Self) {
        <Vec<SigningIdentity>>::lemma_nonempty(&a.as_tuple());
    }

    fn is_encodable(&self) -> (r: bool) {
        self.allowed_senders.is_encodable()
    }

    fn encode(&self, out: &mut Vec<u8>) {
        self.allowed_senders.encode(out);
        assert(out@ =~= old(out)@ + self.enc());
    }

    fn decode(data: &[u8], pos: usize, end: usize) -> (r: Option<(Self, usize)>) {
        match <Vec<SigningIdentity>>::decode(data, pos, end) {
            Some((allowed_senders, p)) => {
                Some((ExternalSendersExt { allowed_senders }, p))
            },
            None => {
                proof {
                    assert forall|x: ExternalSendersExt| x.encodable() implies !#[trigger] prefix_of(x.enc(), data@.subrange(pos as int, end as int)) by {
                        assert(x.as_tuple().encodable());
                    }
                }
                None
            },
        }
    }
}

impl MlsExtension for ExternalSendersExt {
    open spec fn spec_extension_type() -> ExtensionType {
        EXTERNAL_SENDERS_EXT_ID
    }

    fn extension_type() -> (r: ExtensionType) {
        EXTERNAL_SENDERS_EXT_ID
    }
}

impl Extension {
    pub open spec fn as_tuple(self) -> (u16, Vec<u8>) {
        (self.extension_type, self.extension_data)
    }
}

impl Codec for Extension {
    open spec fn enc(&self) -> Seq<u8> {
        self.as_tuple().enc()
    }

    open spec fn encodable(&self) -> bool {
        self.as_tuple().encodable()
    }

    proof fn lemma_unique(a: &Self, b: &Self, s: Seq<u8>) {
        <(u16, Vec<u8>)>::lemma_unique(&a.as_tuple(), &b.as_tuple(), s);
    }

    proof fn lemma_nonempty(a: &Self) {
        <(u16, Vec<u8>)>::lemma_nonempty(&a.as_tuple());
    }

    fn is_encodable(&self) -> (r: bool) {
        self.extension_type.is_encodable() && self.extension_data.is_encodable()
    }

    fn encode(&self, out: &mut Vec<u8>) {
        self.extension_type.encode(out);
        self.extension_data.encode(out);
        assert(out@ =~= old(out)@ + self.enc());
    }

    fn decode(data: &[u8], pos: usize, end: usize) -> (r: Option<(Self, usize)>) {
        match <(u16, Vec<u8>)>::decode(data, pos, end) {
            Some(((extension_type, extension_data), p)) => {
                Some((Extension { extension_type, extension_data }, p))
            },
            None => {
                proof {
                    assert forall|x: Extension| x.encodable() implies !#[trigger] prefix_of(x.enc(), data@.subrange(pos as int, end as int)) by {
                        assert(x.as_tuple().encodable());
                    }
                }
                None
            },
        }
    }
}


} // verus!
