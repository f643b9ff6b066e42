use vstd::prelude::*;

use itertools::Itertools;

use crate::extension::ExtensionList;
use crate::proposal::{
    ADD_PROPOSAL_TYPE, EXTERNAL_INIT_PROPOSAL_TYPE, GROUP_CONTEXT_EXTENSIONS_PROPOSAL_TYPE,
    PSK_PROPOSAL_TYPE, RE_INIT_PROPOSAL_TYPE, REMOVE_PROPOSAL_TYPE, UPDATE_PROPOSAL_TYPE,
    AddProposal, CustomProposal, ExternalInit, LeafIndex, PreSharedKeyProposal, Proposal,
    ProposalOrRef, ProposalRef, ProposalType, ReInitProposal, RemoveProposal, Sender,
    UpdateProposal,
};

verus! {

/// Bucket numbers of the proposal kinds, in the order in which a bundle
/// stores them.
pub const KIND_ADD: u8 = 0;
pub const KIND_UPDATE: u8 = 1;
pub const KIND_REMOVE: u8 = 2;
pub const KIND_PSK: u8 = 3;
pub const KIND_RE_INIT: u8 = 4;
pub const KIND_EXTERNAL_INIT: u8 = 5;
pub const KIND_GROUP_CONTEXT_EXTENSIONS: u8 = 6;
pub const KIND_CUSTOM: u8 = 7;
/// Number of proposal kinds.
pub const KIND_COUNT: u8 = 8;

/// The bucket that a proposal belongs in.
pub open spec fn kind_of(p: Proposal) -> u8 {
    match p {
        Proposal::Add(_) => KIND_ADD,
        Proposal::Update(_) => KIND_UPDATE,
        Proposal::Remove(_) => KIND_REMOVE,
        Proposal::Psk(_) => KIND_PSK,
        Proposal::ReInit(_) => KIND_RE_INIT,
        Proposal::ExternalInit(_) => KIND_EXTERNAL_INIT,
        Proposal::GroupContextExtensions(_) => KIND_GROUP_CONTEXT_EXTENSIONS,
        Proposal::Custom(_) => KIND_CUSTOM,
    }
}

/// How a proposal reached the committer.
#[derive(Clone, Copy, Debug, PartialEq, Eq)]
pub enum ProposalSource {
    ByValue,
    ByReference(ProposalRef),
    /// Produced by a custom rule; true if the proposal it came from was by value.
    CustomRule(bool),
}

/// A proposal together with its sender and source.
#[derive(Clone, Debug, PartialEq, Eq)]
pub struct ProposalInfo<T> {
    pub proposal: T,
    pub sender: Sender,
    pub source: ProposalSource,
}

/// Whether a proposal from this source counts as sent by value.
pub open spec fn source_by_value(s: ProposalSource) -> bool {
    match s {
        ProposalSource::ByValue => true,
        ProposalSource::ByReference(_) => false,
        ProposalSource::CustomRule(by_value) => by_value,
    }
}

/// `info` with its proposal replaced by `p`.
pub open spec fn with_proposal<T, U>(info: ProposalInfo<T>, p: U) -> ProposalInfo<U> {
    ProposalInfo { proposal: p, sender: info.sender, source: info.source }
}

impl ProposalInfo<CustomProposal> {
    /// Expand this custom proposal into several proposals, each with the
    /// same sender and flagged as produced by a custom rule.
    pub fn expand(&self, expanded: Vec<Proposal>) -> (r: Vec<ProposalInfo<Proposal>>)
        ensures
            r@.len() == expanded@.len(),
            forall|i: int|
                0 <= i < r@.len() ==> #[trigger] r@[i] == (ProposalInfo {
                    proposal: expanded@[i],
                    sender: self.sender,
                    source: ProposalSource::CustomRule(source_by_value(self.source)),
                }),
    {
        let by_value = self.is_by_value();
        let mut rest = expanded;
        let mut r: Vec<ProposalInfo<Proposal>> = Vec::new();
        while rest.len() > 0
            invariant
                r@.len() + rest@.len() == expanded@.len(),
                rest@ == expanded@.skip(r@.len() as int),
                by_value == source_by_value(self.source),
                forall|i: int|
                    0 <= i < r@.len() ==> #[trigger] r@[i] == (ProposalInfo {
                        proposal: expanded@[i],
                        sender: self.sender,
                        source: ProposalSource::CustomRule(by_value),
                    }),
            decreases rest@.len(),
        {
            let p = rest.remove(0);
            r.push(ProposalInfo { proposal: p, sender: self.sender, source: ProposalSource::CustomRule(by_value) });
        }
        r
    }
}

impl ProposalInfo<Proposal> {
    /// A proposal produced by a custom rule, by value or by reference as
    /// `by_value` says.
    pub fn new(proposal: Proposal, sender: Sender, by_value: bool) -> (r: ProposalInfo<Proposal>)
        ensures
            r == (ProposalInfo { proposal, sender, source: ProposalSource::CustomRule(by_value) }),
    {
        ProposalInfo { proposal, sender, source: ProposalSource::CustomRule(by_value) }
    }
}

impl<T> ProposalInfo<T> {
    /// Transform the proposal, keeping sender and source.
    pub fn map<U, F: FnOnce(T) -> U>(self, f: F) -> (r: ProposalInfo<U>)
        requires
            f.requires((self.proposal,)),
        ensures
            f.ensures((self.proposal,), r.proposal),
            r.sender == self.sender,
            r.source == self.source,
    {
        ProposalInfo { proposal: f(self.proposal), sender: self.sender, source: self.source }
    }

    /// The same information, borrowing the proposal.
    pub fn by_ref(&self) -> (r: ProposalInfo<&T>)
        ensures
            *r.proposal == self.proposal,
            r.sender == self.sender,
            r.source == self.source,
    {
        ProposalInfo { proposal: &self.proposal, sender: self.sender, source: self.source }
    }

    pub fn is_by_value(&self) -> (r: bool)
        ensures
            r == source_by_value(self.source),
    {
        match self.source {
            ProposalSource::ByValue => true,
            ProposalSource::ByReference(_) => false,
            ProposalSource::CustomRule(by_value) => by_value,
        }
    }

    pub fn is_by_reference(&self) -> (r: bool)
        ensures
            r == !source_by_value(self.source),
    {
        !self.is_by_value()
    }

    /// The sender of this proposal.
    pub fn sender(&self) -> (r: Sender)
        ensures
            r == self.sender,
    {
        self.sender
    }

    /// The underlying proposal value.
    pub fn proposal(&self) -> (r: &T)
        ensures
            *r == self.proposal,
    {
        &self.proposal
    }
}


/// A collection of proposals, one bucket per kind; each bucket keeps the
/// order in which its proposals were added.
#[derive(Clone, Debug)]
pub struct ProposalBundle {
    pub additions: Vec<ProposalInfo<AddProposal>>,
    pub updates: Vec<ProposalInfo<UpdateProposal>>,
    pub update_senders: Vec<LeafIndex>,
    pub removals: Vec<ProposalInfo<RemoveProposal>>,
    pub psks: Vec<ProposalInfo<PreSharedKeyProposal>>,
    pub reinitializations: Vec<ProposalInfo<ReInitProposal>>,
    pub external_initializations: Vec<ProposalInfo<ExternalInit>>,
    pub group_context_extensions: Vec<ProposalInfo<ExtensionList>>,
    pub custom_proposals: Vec<ProposalInfo<CustomProposal>>,
}

impl Default for ProposalBundle {
    fn default() -> (r: ProposalBundle)
        ensures
            forall|k: u8| #[trigger] r.bucket_of(k).len() == 0,
            r.update_senders@.len() == 0,
    {
        ProposalBundle::new()
    }
}

/// Total number of proposals over the buckets `0..n`.
pub open spec fn count_up_to(b: ProposalBundle, n: u8) -> nat
    decreases n,
{
    if n == 0 {
        0
    } else {
        count_up_to(b, (n - 1) as u8) + b.bucket_of((n - 1) as u8).len()
    }
}

impl ProposalBundle {
    /// The proposals of bucket `k`, each wrapped as a `Proposal`.
    pub open spec fn bucket_of(self, k: u8) -> Seq<ProposalInfo<Proposal>> {
        if k == KIND_ADD {
            self.additions@.map_values(|x: ProposalInfo<AddProposal>| with_proposal(x, Proposal::Add(x.proposal)))
        } else if k == KIND_UPDATE {
            self.updates@.map_values(|x: ProposalInfo<UpdateProposal>| with_proposal(x, Proposal::Update(x.proposal)))
        } else if k == KIND_REMOVE {
            self.removals@.map_values(|x: ProposalInfo<RemoveProposal>| with_proposal(x, Proposal::Remove(x.proposal)))
        } else if k == KIND_PSK {
            self.psks@.map_values(|x: ProposalInfo<PreSharedKeyProposal>| with_proposal(x, Proposal::Psk(x.proposal)))
        } else if k == KIND_RE_INIT {
            self.reinitializations@.map_values(|x: ProposalInfo<ReInitProposal>| with_proposal(x, Proposal::ReInit(x.proposal)))
        } else if k == KIND_EXTERNAL_INIT {
            self.external_initializations@.map_values(|x: ProposalInfo<ExternalInit>| with_proposal(x, Proposal::ExternalInit(x.proposal)))
        } else if k == KIND_GROUP_CONTEXT_EXTENSIONS {
            self.group_context_extensions@.map_values(|x: ProposalInfo<ExtensionList>| with_proposal(x, Proposal::GroupContextExtensions(x.proposal)))
        } else if k == KIND_CUSTOM {
            self.custom_proposals@.map_values(|x: ProposalInfo<CustomProposal>| with_proposal(x, Proposal::Custom(x.proposal)))
        } else {
            Seq::empty()
        }
    }

    /// Every bucket but `k`, and the update senders, are as in `other`.
    pub open spec fn unchanged_except(self, other: ProposalBundle, k: u8) -> bool {
        &&& forall|j: u8| j != k ==> #[trigger] self.bucket_of(j) == other.bucket_of(j)
        &&& self.update_senders@ == other.update_senders@
    }

    /// Total number of proposals.
    pub open spec fn spec_length(self) -> nat {
        count_up_to(self, KIND_COUNT)
    }

    /// An empty bundle.
    pub fn new() -> (r: ProposalBundle)
        ensures
            forall|k: u8| #[trigger] r.bucket_of(k).len() == 0,
            r.update_senders@.len() == 0,
    {
        let r = ProposalBundle {
            additions: Vec::new(),
            updates: Vec::new(),
            update_senders: Vec::new(),
            removals: Vec::new(),
            psks: Vec::new(),
            reinitializations: Vec::new(),
            external_initializations: Vec::new(),
            group_context_extensions: Vec::new(),
            custom_proposals: Vec::new(),
        };
        r
    }

    /// Append a proposal to the bucket of its kind.
    pub fn add(&mut self, proposal: Proposal, sender: Sender, source: ProposalSource)
        ensures
            forall|k: u8| #[trigger] final(self).bucket_of(k) == if k == kind_of(proposal) {
                old(self).bucket_of(k).push(ProposalInfo { proposal, sender, source })
            } else {
                old(self).bucket_of(k)
            },
            final(self).update_senders@ == old(self).update_senders@,
    {
        let ghost info = ProposalInfo { proposal, sender, source };
        match proposal {
            Proposal::Add(proposal) => {
                self.additions.push(ProposalInfo { proposal, sender, source });
                assert(self.bucket_of(KIND_ADD) =~= old(self).bucket_of(KIND_ADD).push(info));
            },
            Proposal::Update(proposal) => {
                self.updates.push(ProposalInfo { proposal, sender, source });
                assert(self.bucket_of(KIND_UPDATE) =~= old(self).bucket_of(KIND_UPDATE).push(info));
            },
            Proposal::Remove(proposal) => {
                self.removals.push(ProposalInfo { proposal, sender, source });
                assert(self.bucket_of(KIND_REMOVE) =~= old(self).bucket_of(KIND_REMOVE).push(info));
            },
            Proposal::Psk(proposal) => {
                self.psks.push(ProposalInfo { proposal, sender, source });
                assert(self.bucket_of(KIND_PSK) =~= old(self).bucket_of(KIND_PSK).push(info));
            },
            Proposal::ReInit(proposal) => {
                self.reinitializations.push(ProposalInfo { proposal, sender, source });
                assert(self.bucket_of(KIND_RE_INIT) =~= old(self).bucket_of(KIND_RE_INIT).push(info));
            },
            Proposal::ExternalInit(proposal) => {
                self.external_initializations.push(ProposalInfo { proposal, sender, source });
                assert(self.bucket_of(KIND_EXTERNAL_INIT) =~= old(self).bucket_of(KIND_EXTERNAL_INIT).push(info));
            },
            Proposal::GroupContextExtensions(proposal) => {
                self.group_context_extensions.push(ProposalInfo { proposal, sender, source });
                assert(self.bucket_of(KIND_GROUP_CONTEXT_EXTENSIONS) =~= old(self).bucket_of(KIND_GROUP_CONTEXT_EXTENSIONS).push(info));
            },
            Proposal::Custom(proposal) => {
                self.custom_proposals.push(ProposalInfo { proposal, sender, source });
                assert(self.bucket_of(KIND_CUSTOM) =~= old(self).bucket_of(KIND_CUSTOM).push(info));
            },
        }
    }

    /// The number of proposals in the bundle.
    pub fn length(&self) -> (r: usize)
        requires
            self.spec_length() <= usize::MAX,
        ensures
            r == self.spec_length(),
    {
        proof {
            reveal_with_fuel(count_up_to, 9);
        }
        self.additions.len() + self.updates.len() + self.removals.len() + self.psks.len()
            + self.reinitializations.len() + self.external_initializations.len()
            + self.group_context_extensions.len() + self.custom_proposals.len()
    }

    /// Add proposals in the bundle.
    pub fn add_proposals(&self) -> (r: &[ProposalInfo<AddProposal>])
        ensures
            r@ == self.additions@,
    {
        self.additions.as_slice()
    }

    /// Update proposals in the bundle.
    pub fn update_proposals(&self) -> (r: &[ProposalInfo<UpdateProposal>])
        ensures
            r@ == self.updates@,
    {
        self.updates.as_slice()
    }

    /// Senders of update proposals in the bundle.
    pub fn update_proposal_senders(&self) -> (r: &[LeafIndex])
        ensures
            r@ == self.update_senders@,
    {
        self.update_senders.as_slice()
    }

    /// Remove proposals in the bundle.
    pub fn remove_proposals(&self) -> (r: &[ProposalInfo<RemoveProposal>])
        ensures
            r@ == self.removals@,
    {
        self.removals.as_slice()
    }

    /// Pre-shared key proposals in the bundle.
    pub fn psk_proposals(&self) -> (r: &[ProposalInfo<PreSharedKeyProposal>])
        ensures
            r@ == self.psks@,
    {
        self.psks.as_slice()
    }

    /// Reinit proposals in the bundle.
    pub fn reinit_proposals(&self) -> (r: &[ProposalInfo<ReInitProposal>])
        ensures
            r@ == self.reinitializations@,
    {
        self.reinitializations.as_slice()
    }

    /// External init proposals in the bundle.
    pub fn external_init_proposals(&self) -> (r: &[ProposalInfo<ExternalInit>])
        ensures
            r@ == self.external_initializations@,
    {
        self.external_initializations.as_slice()
    }

    /// Group context extension proposals in the bundle.
    pub fn group_context_ext_proposals(&self) -> (r: &[ProposalInfo<ExtensionList>])
        ensures
            r@ == self.group_context_extensions@,
    {
        self.group_context_extensions.as_slice()
    }

    /// Custom proposals in the bundle.
    pub fn custom_proposals(&self) -> (r: &[ProposalInfo<CustomProposal>])
        ensures
            r@ == self.custom_proposals@,
    {
        self.custom_proposals.as_slice()
    }

    /// The first group context extensions proposal, if any.
    pub fn group_context_extensions_proposal(&self) -> (r: Option<&ProposalInfo<ExtensionList>>)
        ensures
            self.group_context_extensions@.len() == 0 ==> r.is_none(),
            self.group_context_extensions@.len() > 0 ==> r == Some(&self.group_context_extensions@[0]),
    {
        if self.group_context_extensions.len() > 0 {
            Some(&self.group_context_extensions[0])
        } else {
            None
        }
    }

    /// Drop every group context extensions proposal.
    pub fn clear_group_context_extensions(&mut self)
        ensures
            final(self).group_context_extensions@.len() == 0,
            final(self).unchanged_except(*old(self), KIND_GROUP_CONTEXT_EXTENSIONS),
    {
        self.group_context_extensions = Vec::new();
    }
}


/// A proposal borrowed from a bundle.
#[derive(Debug)]
pub enum BorrowedProposal<'a> {
    Add(&'a AddProposal),
    Update(&'a UpdateProposal),
    Remove(&'a RemoveProposal),
    Psk(&'a PreSharedKeyProposal),
    ReInit(&'a ReInitProposal),
    ExternalInit(&'a ExternalInit),
    GroupContextExtensions(&'a ExtensionList),
    Custom(&'a CustomProposal),
}

impl<'a> BorrowedProposal<'a> {
    /// The proposal that is borrowed.
    pub open spec fn owned(self) -> Proposal {
        match self {
            BorrowedProposal::Add(p) => Proposal::Add(*p),
            BorrowedProposal::Update(p) => Proposal::Update(*p),
            BorrowedProposal::Remove(p) => Proposal::Remove(*p),
            BorrowedProposal::Psk(p) => Proposal::Psk(*p),
            BorrowedProposal::ReInit(p) => Proposal::ReInit(*p),
            BorrowedProposal::ExternalInit(p) => Proposal::ExternalInit(*p),
            BorrowedProposal::GroupContextExtensions(p) => Proposal::GroupContextExtensions(*p),
            BorrowedProposal::Custom(p) => Proposal::Custom(*p),
        }
    }
}

/// The proposal information that a borrowed one stands for.
pub open spec fn owned_info(b: ProposalInfo<BorrowedProposal>) -> ProposalInfo<Proposal> {
    with_proposal(b, b.proposal.owned())
}

/// A proposal type that has its own bucket in a `ProposalBundle`.
pub trait Proposable: Sized {
    /// Number of this type's bucket.
    spec fn kind() -> u8;

    /// This type's bucket of `b`.
    spec fn bucket(b: ProposalBundle) -> Seq<ProposalInfo<Self>>;

    /// `p` as a `Proposal`.
    spec fn wrap(p: Self) -> Proposal;

    proof fn lemma_bucket(b: ProposalBundle)
        ensures
            Self::kind() < KIND_COUNT,
            b.bucket_of(Self::kind()) == Self::bucket(b).map_values(
                |x: ProposalInfo<Self>| with_proposal(x, Self::wrap(x.proposal)),
            ),
            forall|p: Self| #[trigger] kind_of(Self::wrap(p)) == Self::kind(),
    ;

    /// This type's bucket of `bundle`.
    fn filter(bundle: &ProposalBundle) -> (r: &[ProposalInfo<Self>])
        ensures
            r@ == Self::bucket(*bundle),
    ;

    /// Empty this type's bucket, returning what it held.
    fn take(bundle: &mut ProposalBundle) -> (r: Vec<ProposalInfo<Self>>)
        ensures
            r@ == Self::bucket(*old(bundle)),
            Self::bucket(*final(bundle)).len() == 0,
            final(bundle).unchanged_except(*old(bundle), Self::kind()),
    ;

    /// Set this type's bucket to `items`.
    fn restore(bundle: &mut ProposalBundle, items: Vec<ProposalInfo<Self>>)
        ensures
            Self::bucket(*final(bundle)) == items@,
            final(bundle).unchanged_except(*old(bundle), Self::kind()),
    ;

    /// Borrow `p` as a `BorrowedProposal`.
    fn borrow(p: &Self) -> (r: BorrowedProposal<'_>)
        ensures
            r.owned() == Self::wrap(*p),
    ;

    /// `p` as a `Proposal`.
    fn into_proposal(p: Self) -> (r: Proposal)
        ensures
            r == Self::wrap(p),
    ;
}

impl Proposable for AddProposal {
    open spec fn kind() -> u8 {
        KIND_ADD
    }

    open spec fn bucket(b: ProposalBundle) -> Seq<ProposalInfo<Self>> {
        b.additions@
    }

    open spec fn wrap(p: Self) -> Proposal {
        Proposal::Add(p)
    }

    proof fn lemma_bucket(b: ProposalBundle) {
    }

    fn filter(bundle: &ProposalBundle) -> (r: &[ProposalInfo<Self>]) {
        bundle.additions.as_slice()
    }

    fn take(bundle: &mut ProposalBundle) -> (r: Vec<ProposalInfo<Self>>) {
        let mut r: Vec<ProposalInfo<Self>> = Vec::new();
        core::mem::swap(&mut r, &mut bundle.additions);
        proof {
            assert(Self::bucket(*bundle) =~= Seq::empty());
            assert(final(bundle).unchanged_except(*old(bundle), Self::kind()));
        }
        r
    }

    fn restore(bundle: &mut ProposalBundle, items: Vec<ProposalInfo<Self>>) {
        bundle.additions = items;
    }

    fn borrow(p: &Self) -> (r: BorrowedProposal<'_>) {
        BorrowedProposal::Add(p)
    }

    fn into_proposal(p: Self) -> (r: Proposal) {
        Proposal::Add(p)
    }
}

impl Proposable for UpdateProposal {
    open spec fn kind() -> u8 {
        KIND_UPDATE
    }

    open spec fn bucket(b: ProposalBundle) -> Seq<ProposalInfo<Self>> {
        b.updates@
    }

    open spec fn wrap(p: Self) -> Proposal {
        Proposal::Update(p)
    }

    proof fn lemma_bucket(b: ProposalBundle) {
    }

    fn filter(bundle: &ProposalBundle) -> (r: &[ProposalInfo<Self>]) {
        bundle.updates.as_slice()
    }

    fn take(bundle: &mut ProposalBundle) -> (r: Vec<ProposalInfo<Self>>) {
        let mut r: Vec<ProposalInfo<Self>> = Vec::new();
        core::mem::swap(&mut r, &mut bundle.updates);
        proof {
            assert(Self::bucket(*bundle) =~= Seq::empty());
            assert(final(bundle).unchanged_except(*old(bundle), Self::kind()));
        }
        r
    }

    fn restore(bundle: &mut ProposalBundle, items: Vec<ProposalInfo<Self>>) {
        bundle.updates = items;
    }

    fn borrow(p: &Self) -> (r: BorrowedProposal<'_>) {
        BorrowedProposal::Update(p)
    }

    fn into_proposal(p: Self) -> (r: Proposal) {
        Proposal::Update(p)
    }
}

impl Proposable for RemoveProposal {
    open spec fn kind() -> u8 {
        KIND_REMOVE
    }

    open spec fn bucket(b: ProposalBundle) -> Seq<ProposalInfo<Self>> {
        b.removals@
    }

    open spec fn wrap(p: Self) -> Proposal {
        Proposal::Remove(p)
    }

    proof fn lemma_bucket(b: ProposalBundle) {
    }

    fn filter(bundle: &ProposalBundle) -> (r: &[ProposalInfo<Self>]) {
        bundle.removals.as_slice()
    }

    fn take(bundle: &mut ProposalBundle) -> (r: Vec<ProposalInfo<Self>>) {
        let mut r: Vec<ProposalInfo<Self>> = Vec::new();
        core::mem::swap(&mut r, &mut bundle.removals);
        proof {
            assert(Self::bucket(*bundle) =~= Seq::empty());
            assert(final(bundle).unchanged_except(*old(bundle), Self::kind()));
        }
        r
    }

    fn restore(bundle: &mut ProposalBundle, items: Vec<ProposalInfo<Self>>) {
        bundle.removals = items;
    }

    fn borrow(p: &Self) -> (r: BorrowedProposal<'_>) {
        BorrowedProposal::Remove(p)
    }

    fn into_proposal(p: Self) -> (r: Proposal) {
        Proposal::Remove(p)
    }
}

impl Proposable for PreSharedKeyProposal {
    open spec fn kind() -> u8 {
        KIND_PSK
    }

    open spec fn bucket(b: ProposalBundle) -> Seq<ProposalInfo<Self>> {
        b.psks@
    }

    open spec fn wrap(p: Self) -> Proposal {
        Proposal::Psk(p)
    }

    proof fn lemma_bucket(b: ProposalBundle) {
    }

    fn filter(bundle: &ProposalBundle) -> (r: &[ProposalInfo<Self>]) {
        bundle.psks.as_slice()
    }

    fn take(bundle: &mut ProposalBundle) -> (r: Vec<ProposalInfo<Self>>) {
        let mut r: Vec<ProposalInfo<Self>> = Vec::new();
        core::mem::swap(&mut r, &mut bundle.psks);
        proof {
            assert(Self::bucket(*bundle) =~= Seq::empty());
            assert(final(bundle).unchanged_except(*old(bundle), Self::kind()));
        }
        r
    }

    fn restore(bundle: &mut ProposalBundle, items: Vec<ProposalInfo<Self>>) {
        bundle.psks = items;
    }

    fn borrow(p: &Self) -> (r: BorrowedProposal<'_>) {
        BorrowedProposal::Psk(p)
    }

    fn into_proposal(p: Self) -> (r: Proposal) {
        Proposal::Psk(p)
    }
}

impl Proposable for ReInitProposal {
    open spec fn kind() -> u8 {
        KIND_RE_INIT
    }

    open spec fn bucket(b: ProposalBundle) -> Seq<ProposalInfo<Self>> {
        b.reinitializations@
    }

    open spec fn wrap(p: Self) -> Proposal {
        Proposal::ReInit(p)
    }

    proof fn lemma_bucket(b: ProposalBundle) {
    }

    fn filter(bundle: &ProposalBundle) -> (r: &[ProposalInfo<Self>]) {
        bundle.reinitializations.as_slice()
    }

    fn take(bundle: &mut ProposalBundle) -> (r: Vec<ProposalInfo<Self>>) {
        let mut r: Vec<ProposalInfo<Self>> = Vec::new();
        core::mem::swap(&mut r, &mut bundle.reinitializations);
        proof {
            assert(Self::bucket(*bundle) =~= Seq::empty());
            assert(final(bundle).unchanged_except(*old(bundle), Self::kind()));
        }
        r
    }

    fn restore(bundle: &mut ProposalBundle, items: Vec<ProposalInfo<Self>>) {
        bundle.reinitializations = items;
    }

    fn borrow(p: &Self) -> (r: BorrowedProposal<'_>) {
        BorrowedProposal::ReInit(p)
    }

    fn into_proposal(p: Self) -> (r: Proposal) {
        Proposal::ReInit(p)
    }
}

impl Proposable for ExternalInit {
    open spec fn kind() -> u8 {
        KIND_EXTERNAL_INIT
    }

    open spec fn bucket(b: ProposalBundle) -> Seq<ProposalInfo<Self>> {
        b.external_initializations@
    }

    open spec fn wrap(p: Self) -> Proposal {
        Proposal::ExternalInit(p)
    }

    proof fn lemma_bucket(b: ProposalBundle) {
    }

    fn filter(bundle: &ProposalBundle) -> (r: &[ProposalInfo<Self>]) {
        bundle.external_initializations.as_slice()
    }

    fn take(bundle: &mut ProposalBundle) -> (r: Vec<ProposalInfo<Self>>) {
        let mut r: Vec<ProposalInfo<Self>> = Vec::new();
        core::mem::swap(&mut r, &mut bundle.external_initializations);
        proof {
            assert(Self::bucket(*bundle) =~= Seq::empty());
            assert(final(bundle).unchanged_except(*old(bundle), Self::kind()));
        }
        r
    }

    fn restore(bundle: &mut ProposalBundle, items: Vec<ProposalInfo<Self>>) {
        bundle.external_initializations = items;
    }

    fn borrow(p: &Self) -> (r: BorrowedProposal<'_>) {
        BorrowedProposal::ExternalInit(p)
    }

    fn into_proposal(p: Self) -> (r: Proposal) {
        Proposal::ExternalInit(p)
    }
}

impl Proposable for ExtensionList {
    open spec fn kind() -> u8 {
        KIND_GROUP_CONTEXT_EXTENSIONS
    }

    open spec fn bucket(b: ProposalBundle) -> Seq<ProposalInfo<Self>> {
        b.group_context_extensions@
    }

    open spec fn wrap(p: Self) -> Proposal {
        Proposal::GroupContextExtensions(p)
    }

    proof fn lemma_bucket(b: ProposalBundle) {
    }

    fn filter(bundle: &ProposalBundle) -> (r: &[ProposalInfo<Self>]) {
        bundle.group_context_extensions.as_slice()
    }

    fn take(bundle: &mut ProposalBundle) -> (r: Vec<ProposalInfo<Self>>) {
        let mut r: Vec<ProposalInfo<Self>> = Vec::new();
        core::mem::swap(&mut r, &mut bundle.group_context_extensions);
        proof {
            assert(Self::bucket(*bundle) =~= Seq::empty());
            assert(final(bundle).unchanged_except(*old(bundle), Self::kind()));
        }
        r
    }

    fn restore(bundle: &mut ProposalBundle, items: Vec<ProposalInfo<Self>>) {
        bundle.group_context_extensions = items;
    }

    fn borrow(p: &Self) -> (r: BorrowedProposal<'_>) {
        BorrowedProposal::GroupContextExtensions(p)
    }

    fn into_proposal(p: Self) -> (r: Proposal) {
        Proposal::GroupContextExtensions(p)
    }
}

impl Proposable for CustomProposal {
    open spec fn kind() -> u8 {
        KIND_CUSTOM
    }

    open spec fn bucket(b: ProposalBundle) -> Seq<ProposalInfo<Self>> {
        b.custom_proposals@
    }

    open spec fn wrap(p: Self) -> Proposal {
        Proposal::Custom(p)
    }

    proof fn lemma_bucket(b: ProposalBundle) {
    }

    fn filter(bundle: &ProposalBundle) -> (r: &[ProposalInfo<Self>]) {
        bundle.custom_proposals.as_slice()
    }

    fn take(bundle: &mut ProposalBundle) -> (r: Vec<ProposalInfo<Self>>) {
        let mut r: Vec<ProposalInfo<Self>> = Vec::new();
        core::mem::swap(&mut r, &mut bundle.custom_proposals);
        proof {
            assert(Self::bucket(*bundle) =~= Seq::empty());
            assert(final(bundle).unchanged_except(*old(bundle), Self::kind()));
        }
        r
    }

    fn restore(bundle: &mut ProposalBundle, items: Vec<ProposalInfo<Self>>) {
        bundle.custom_proposals = items;
    }

    fn borrow(p: &Self) -> (r: BorrowedProposal<'_>) {
        BorrowedProposal::Custom(p)
    }

    fn into_proposal(p: Self) -> (r: Proposal) {
        Proposal::Custom(p)
    }
}


/// The items whose outcome is `Ok(true)`, in order.
pub open spec fn kept<T, E>(items: Seq<T>, outs: Seq<Result<bool, E>>) -> Seq<T>
    decreases items.len(),
{
    if items.len() == 0 {
        Seq::empty()
    } else {
        let rest = kept(items.drop_last(), outs.drop_last());
        if outs.last() == Ok::<bool, E>(true) {
            rest.push(items.last())
        } else {
            rest
        }
    }
}

/// The first error among `outs`, or `Ok(())` if there is none.
pub open spec fn first_error<E>(outs: Seq<Result<bool, E>>) -> Result<(), E>
    decreases outs.len(),
{
    if outs.len() == 0 {
        Ok(())
    } else {
        let prev = first_error(outs.drop_last());
        if prev is Ok {
            match outs.last() {
                Ok(_) => Ok(()),
                Err(e) => Err(e),
            }
        } else {
            prev
        }
    }
}

/// `after` is what `f` keeps of `before`, and `res` the first error that `f`
/// reported (every item is offered to `f`; one with an error is dropped).
pub open spec fn retained_by<T, F: Fn(&ProposalInfo<T>) -> Result<bool, E>, E>(
    before: Seq<ProposalInfo<T>>,
    after: Seq<ProposalInfo<T>>,
    f: F,
    res: Result<(), E>,
) -> bool {
    exists|outs: Seq<Result<bool, E>>|
        {
            &&& outs.len() == before.len()
            &&& forall|i: int| 0 <= i < before.len() ==> f.ensures((&before[i],), #[trigger] outs[i])
            &&& after == #[trigger] kept(before, outs)
            &&& res == first_error(outs)
        }
}

/// As `retained_by`, where `f` sees each proposal borrowed.
pub open spec fn retained_borrowed<F: Fn(&ProposalInfo<BorrowedProposal>) -> Result<bool, E>, E>(
    before: Seq<ProposalInfo<Proposal>>,
    after: Seq<ProposalInfo<Proposal>>,
    f: F,
    res: Result<(), E>,
) -> bool {
    exists|outs: Seq<Result<bool, E>>|
        {
            &&& outs.len() == before.len()
            &&& forall|i: int, a: ProposalInfo<BorrowedProposal>|
                0 <= i < before.len() && owned_info(a) == before[i] ==> #[trigger] f.ensures((&a,), outs[i])
            &&& after == #[trigger] kept(before, outs)
            &&& res == first_error(outs)
        }
}

pub(crate) proof fn lemma_kept_step<T, E>(items: Seq<T>, outs: Seq<Result<bool, E>>, n: int, o: Result<bool, E>)
    requires
        0 <= n < items.len(),
        outs.len() == n,
    ensures
        kept(items.take(n + 1), outs.push(o)) == if o == Ok::<bool, E>(true) {
            kept(items.take(n), outs).push(items[n])
        } else {
            kept(items.take(n), outs)
        },
        first_error(outs.push(o)) == if first_error(outs) is Ok {
            match o {
                Ok(_) => Ok(()),
                Err(e) => Err(e),
            }
        } else {
            first_error(outs)
        },
{
    assert(items.take(n + 1).drop_last() =~= items.take(n));
    assert(outs.push(o).drop_last() =~= outs);
}

pub(crate) proof fn lemma_kept_map<T, U, E>(items: Seq<T>, outs: Seq<Result<bool, E>>, f: spec_fn(T) -> U)
    ensures
        kept(items, outs).map_values(f) == kept(items.map_values(f), outs),
    decreases items.len(),
{
    if items.len() > 0 {
        lemma_kept_map(items.drop_last(), outs.drop_last(), f);
        assert(items.map_values(f).drop_last() =~= items.drop_last().map_values(f));
        let rest = kept(items.drop_last(), outs.drop_last());
        assert(rest.push(items.last()).map_values(f) =~= rest.map_values(f).push(f(items.last())));
    } else {
        assert(kept(items, outs).map_values(f) =~= Seq::empty());
    }
}

/// A commit applies the updates, then the removes, then the adds, whatever
/// order the proposals arrived in: bundles built from two arrival orders that
/// agree on the order among proposals of each kind apply the same changes,
/// and those are the arrived updates, then removes, then adds, each in
/// arrival order.
pub proof fn lemma_membership_order_ignores_arrival(
    s1: Seq<ProposalInfo<Proposal>>,
    s2: Seq<ProposalInfo<Proposal>>,
    b1: ProposalBundle,
    b2: ProposalBundle,
)
    requires
        forall|k: u8| #[trigger] b1.bucket_of(k) == of_kind(s1, k),
        forall|k: u8| #[trigger] b2.bucket_of(k) == of_kind(s2, k),
        forall|k: u8| #[trigger] of_kind(s1, k) == of_kind(s2, k),
    ensures
        b1.membership_order() == b2.membership_order(),
        b1.membership_order() == of_kind(s1, KIND_UPDATE) + of_kind(s1, KIND_REMOVE) + of_kind(s1, KIND_ADD),
{
    assert(b1.bucket_of(KIND_UPDATE) == b2.bucket_of(KIND_UPDATE));
    assert(b1.bucket_of(KIND_REMOVE) == b2.bucket_of(KIND_REMOVE));
    assert(b1.bucket_of(KIND_ADD) == b2.bucket_of(KIND_ADD));
}

/// Proposals of `s` in bucket `k`, in order.
pub open spec fn of_kind(s: Seq<ProposalInfo<Proposal>>, k: u8) -> Seq<ProposalInfo<Proposal>>
    decreases s.len(),
{
    if s.len() == 0 {
        Seq::empty()
    } else if kind_of(s.last().proposal) == k {
        of_kind(s.drop_last(), k).push(s.last())
    } else {
        of_kind(s.drop_last(), k)
    }
}

impl ProposalBundle {
    /// Remove the proposal of type `T` at `index`; an index past the end
    /// of that bucket changes nothing.
    pub fn remove<T: Proposable>(&mut self, index: usize)
        ensures
            T::bucket(*final(self)) == if index < T::bucket(*old(self)).len() {
                T::bucket(*old(self)).remove(index as int)
            } else {
                T::bucket(*old(self))
            },
            final(self).unchanged_except(*old(self), T::kind()),
    {
        let mut items = T::take(self);
        if index < items.len() {
            items.remove(index);
        }
        T::restore(self, items);
    }

    /// Proposals of type `T`, in order.
    pub fn by_type<T: Proposable>(&self) -> (r: &[ProposalInfo<T>])
        ensures
            r@ == T::bucket(*self),
    {
        T::filter(self)
    }

    /// Keep the proposals of type `T` for which `f` returns `Ok(true)`;
    /// every proposal is offered to `f`, and the first error is returned.
    pub fn retain_by_type<T, F, E>(&mut self, f: F) -> (r: Result<(), E>)
        where
            T: Proposable,
            F: Fn(&ProposalInfo<T>) -> Result<bool, E>,
        requires
            forall|p: &ProposalInfo<T>| f.requires((p,)),
        ensures
            retained_by(T::bucket(*old(self)), T::bucket(*final(self)), f, r),
            final(self).unchanged_except(*old(self), T::kind()),
    {
        let ghost before = T::bucket(*self);
        let mut rest = T::take(self);
        let mut keep: Vec<ProposalInfo<T>> = Vec::new();
        let mut res: Result<(), E> = Ok(());
        let ghost mut outs: Seq<Result<bool, E>> = Seq::empty();
        while rest.len() > 0
            invariant
                forall|p: &ProposalInfo<T>| f.requires((p,)),
                outs.len() <= before.len(),
                rest@ == before.skip(outs.len() as int),
                forall|i: int| 0 <= i < outs.len() ==> f.ensures((&before[i],), #[trigger] outs[i]),
                keep@ == kept(before.take(outs.len() as int), outs),
                res == first_error(outs),
                self.unchanged_except(*old(self), T::kind()),
            decreases rest@.len(),
        {
            let p = rest.remove(0);
            let out = f(&p);
            proof {
                lemma_kept_step(before, outs, outs.len() as int, out);
                outs = outs.push(out);
            }
            match out {
                Ok(keep_it) => {
                    if keep_it {
                        keep.push(p);
                    }
                },
                Err(e) => {
                    if res.is_ok() {
                        res = Err(e);
                    }
                },
            }
        }
        proof {
            assert(before.take(outs.len() as int) =~= before);
        }
        T::restore(self, keep);
        res
    }

    /// Keep the custom proposals for which `f` returns `Ok(true)`.
    pub fn retain_custom<F, E>(&mut self, f: F) -> (r: Result<(), E>)
        where
            F: Fn(&ProposalInfo<CustomProposal>) -> Result<bool, E>,
        requires
            forall|p: &ProposalInfo<CustomProposal>| f.requires((p,)),
        ensures
            retained_by(old(self).custom_proposals@, final(self).custom_proposals@, f, r),
            final(self).unchanged_except(*old(self), KIND_CUSTOM),
    {
        self.retain_by_type::<CustomProposal, F, E>(f)
    }

    fn retain_kind_borrowed<T, F, E>(&mut self, f: &F) -> (r: Result<(), E>)
        where
            T: Proposable,
            F: Fn(&ProposalInfo<BorrowedProposal>) -> Result<bool, E>,
        requires
            forall|p: &ProposalInfo<BorrowedProposal>| f.requires((p,)),
        ensures
            retained_borrowed(old(self).bucket_of(T::kind()), final(self).bucket_of(T::kind()), *f, r),
            final(self).unchanged_except(*old(self), T::kind()),
    {
        let ghost before = T::bucket(*self);
        let ghost wrap_fn = |x: ProposalInfo<T>| with_proposal(x, T::wrap(x.proposal));
        let ghost wbefore = before.map_values(wrap_fn);
        proof {
            T::lemma_bucket(*self);
        }
        let mut rest = T::take(self);
        let mut keep: Vec<ProposalInfo<T>> = Vec::new();
        let mut res: Result<(), E> = Ok(());
        let ghost mut outs: Seq<Result<bool, E>> = Seq::empty();
        while rest.len() > 0
            invariant
                forall|p: &ProposalInfo<BorrowedProposal>| f.requires((p,)),
                outs.len() <= before.len(),
                wbefore == before.map_values(wrap_fn),
                wrap_fn == (|x: ProposalInfo<T>| with_proposal(x, T::wrap(x.proposal))),
                rest@ == before.skip(outs.len() as int),
                forall|i: int, a: ProposalInfo<BorrowedProposal>|
                    0 <= i < outs.len() && owned_info(a) == wbefore[i] ==> #[trigger] f.ensures((&a,), outs[i]),
                keep@ == kept(before.take(outs.len() as int), outs),
                res == first_error(outs),
                self.unchanged_except(*old(self), T::kind()),
            decreases rest@.len(),
        {
            let p = rest.remove(0);
            let b = ProposalInfo { proposal: T::borrow(&p.proposal), sender: p.sender, source: p.source };
            let out = f(&b);
            proof {
                let n = outs.len() as int;
                assert(owned_info(b) == wbefore[n]);
                assert forall|i: int, a: ProposalInfo<BorrowedProposal>|
                    0 <= i < n + 1 && owned_info(a) == wbefore[i] implies #[trigger] f.ensures((&a,), outs.push(out)[i]) by {
                    if i == n {
                        assert(a == b);
                    } else {
                        assert(outs.push(out)[i] == outs[i]);
                    }
                }
                lemma_kept_step(before, outs, n, out);
                outs = outs.push(out);
            }
            match out {
                Ok(keep_it) => {
                    if keep_it {
                        keep.push(p);
                    }
                },
                Err(e) => {
                    if res.is_ok() {
                        res = Err(e);
                    }
                },
            }
        }
        proof {
            assert(before.take(outs.len() as int) =~= before);
            lemma_kept_map(before, outs, wrap_fn);
        }
        T::restore(self, keep);
        proof {
            T::lemma_bucket(*self);
        }
        res
    }
}


/// Progress of `retain` from `start`: the buckets before `s` went through
/// `f` without error, the others are untouched.
pub open spec fn retain_progress<F: Fn(&ProposalInfo<BorrowedProposal>) -> Result<bool, E>, E>(
    start: ProposalBundle,
    cur: ProposalBundle,
    f: F,
    s: u8,
) -> bool {
    &&& forall|k: u8| k < s ==> #[trigger] retained_borrowed(start.bucket_of(k), cur.bucket_of(k), f, Ok(()))
    &&& forall|k: u8| s <= k ==> #[trigger] cur.bucket_of(k) == start.bucket_of(k)
    &&& cur.update_senders@ == start.update_senders@
}

/// Outcome of `retain`: it stopped at bucket `s` (or ran through every
/// standard bucket when `s` is the custom bucket) with result `r`.
pub open spec fn retain_outcome<F: Fn(&ProposalInfo<BorrowedProposal>) -> Result<bool, E>, E>(
    start: ProposalBundle,
    end: ProposalBundle,
    f: F,
    r: Result<(), E>,
    s: u8,
) -> bool {
    &&& s <= KIND_CUSTOM
    &&& forall|k: u8| k < s ==> #[trigger] retained_borrowed(start.bucket_of(k), end.bucket_of(k), f, Ok(()))
    &&& s < KIND_CUSTOM ==> r is Err && retained_borrowed(start.bucket_of(s), end.bucket_of(s), f, r)
    &&& s == KIND_CUSTOM ==> r is Ok
    &&& forall|k: u8| s < k ==> #[trigger] end.bucket_of(k) == start.bucket_of(k)
    &&& end.bucket_of(KIND_CUSTOM) == start.bucket_of(KIND_CUSTOM)
    &&& end.update_senders@ == start.update_senders@
}

/// The proposals that borrowed ones stand for.
pub open spec fn owned_all(s: Seq<ProposalInfo<BorrowedProposal>>) -> Seq<ProposalInfo<Proposal>> {
    s.map_values(|b: ProposalInfo<BorrowedProposal>| owned_info(b))
}

/// What `into_proposals_or_refs` makes of a sequence of proposals: by-value
/// ones in full, by-reference ones as their reference, and custom-rule ones
/// dropped.
pub open spec fn proposals_or_refs(s: Seq<ProposalInfo<Proposal>>) -> Seq<ProposalOrRef>
    decreases s.len(),
{
    if s.len() == 0 {
        Seq::empty()
    } else {
        let prev = proposals_or_refs(s.drop_last());
        match s.last().source {
            ProposalSource::ByValue => prev.push(ProposalOrRef::Proposal(Box::new(s.last().proposal))),
            ProposalSource::ByReference(r) => prev.push(ProposalOrRef::Reference(r)),
            ProposalSource::CustomRule(_) => prev,
        }
    }
}

/// Each value of `s` at its first occurrence, in order.
pub open spec fn first_occurrences(s: Seq<ProposalType>) -> Seq<ProposalType>
    decreases s.len(),
{
    if s.len() == 0 {
        Seq::empty()
    } else {
        let prev = first_occurrences(s.drop_last());
        if prev.contains(s.last()) {
            prev
        } else {
            prev.push(s.last())
        }
    }
}

/// `seq![t]` if `present`, else the empty sequence.
pub open spec fn type_if(present: bool, t: ProposalType) -> Seq<ProposalType> {
    if present {
        seq![t]
    } else {
        Seq::empty()
    }
}

/// Relies on itertools::Itertools::unique: yields each value at its first
/// occurrence, in the order of the input.
#[verifier::external_body]
fn unique_types(types: Vec<ProposalType>) -> (r: Vec<ProposalType>)
    ensures
        r@ == first_occurrences(types@),
{
    types.into_iter().unique().collect()
}

fn push_borrowed<'a, T: Proposable + 'a>(bundle: &'a ProposalBundle, out: &mut Vec<ProposalInfo<BorrowedProposal<'a>>>)
    ensures
        owned_all(final(out)@) == owned_all(old(out)@) + bundle.bucket_of(T::kind()),
{
    let items = T::filter(bundle);
    let ghost wrap_fn = |x: ProposalInfo<T>| with_proposal(x, T::wrap(x.proposal));
    proof {
        T::lemma_bucket(*bundle);
    }
    let mut i: usize = 0;
    while i < items.len()
        invariant
            i <= items@.len(),
            items@ == T::bucket(*bundle),
            wrap_fn == (|x: ProposalInfo<T>| with_proposal(x, T::wrap(x.proposal))),
            owned_all(out@) == owned_all(old(out)@) + items@.take(i as int).map_values(wrap_fn),
        decreases items@.len() - i,
    {
        let p = &items[i];
        let b = ProposalInfo { proposal: T::borrow(&p.proposal), sender: p.sender, source: p.source };
        let ghost prev = out@;
        out.push(b);
        proof {
            assert(owned_all(out@) =~= owned_all(prev).push(owned_info(b)));
            assert(items@.take(i + 1).map_values(wrap_fn) =~= items@.take(i as int).map_values(wrap_fn).push(wrap_fn(items@[i as int])));
        }
        i = i + 1;
    }
    proof {
        assert(items@.take(i as int) =~= items@);
    }
}

fn append_wrapped<T: Proposable>(items: Vec<ProposalInfo<T>>, out: &mut Vec<ProposalInfo<Proposal>>)
    ensures
        final(out)@ == old(out)@ + items@.map_values(|x: ProposalInfo<T>| with_proposal(x, T::wrap(x.proposal))),
{
    let ghost wrap_fn = |x: ProposalInfo<T>| with_proposal(x, T::wrap(x.proposal));
    let ghost all = items@;
    assert(all.len() <= usize::MAX) by {
        assert(items@.len() == items.len());
    }
    let mut rest = items;
    let mut n: usize = 0;
    while rest.len() > 0
        invariant
            all.len() <= usize::MAX,
            n + rest@.len() == all.len(),
            rest@ == all.skip(n as int),
            wrap_fn == (|x: ProposalInfo<T>| with_proposal(x, T::wrap(x.proposal))),
            out@ == old(out)@ + all.take(n as int).map_values(wrap_fn),
        decreases rest@.len(),
    {
        let p = rest.remove(0);
        let ghost pp = p;
        let w = ProposalInfo { proposal: T::into_proposal(p.proposal), sender: p.sender, source: p.source };
        out.push(w);
        proof {
            assert(pp == all[n as int]);
            assert(all.take(n + 1).map_values(wrap_fn) =~= all.take(n as int).map_values(wrap_fn).push(wrap_fn(pp)));
        }
        n = n + 1;
    }
    proof {
        assert(all.take(n as int) =~= all);
    }
}

impl ProposalBundle {
    fn retain_step<T, F, E>(&mut self, f: &F, Ghost(start): Ghost<ProposalBundle>) -> (r: Result<(), E>)
        where
            T: Proposable,
            F: Fn(&ProposalInfo<BorrowedProposal>) -> Result<bool, E>,
        requires
            forall|p: &ProposalInfo<BorrowedProposal>| f.requires((p,)),
            retain_progress(start, *old(self), *f, T::kind()),
            T::kind() < KIND_CUSTOM,
        ensures
            r is Ok ==> retain_progress(start, *final(self), *f, (T::kind() + 1) as u8),
            r is Err ==> retain_outcome(start, *final(self), *f, r, T::kind()),
    {
        proof {
            T::lemma_bucket(*self);
        }
        self.retain_kind_borrowed::<T, F, E>(f)
    }

    /// Keep the standard proposals for which `f` returns `Ok(true)`, bucket
    /// by bucket (adds, updates, removes, pre-shared keys, reinits, external
    /// inits, group context extensions). Within a bucket every proposal is
    /// offered to `f`; after a bucket in which `f` reported an error, that
    /// error is returned and the later buckets are left as they are.
    pub fn retain<F, E>(&mut self, f: F) -> (r: Result<(), E>)
        where
            F: Fn(&ProposalInfo<BorrowedProposal>) -> Result<bool, E>,
        requires
            forall|p: &ProposalInfo<BorrowedProposal>| f.requires((p,)),
        ensures
            exists|s: u8| #[trigger] retain_outcome(*old(self), *final(self), f, r, s),
    {
        let ghost start = *self;
        let r = self.retain_step::<AddProposal, F, E>(&f, Ghost(start));
        if r.is_err() {
            return r;
        }
        let r = self.retain_step::<UpdateProposal, F, E>(&f, Ghost(start));
        if r.is_err() {
            return r;
        }
        let r = self.retain_step::<RemoveProposal, F, E>(&f, Ghost(start));
        if r.is_err() {
            return r;
        }
        let r = self.retain_step::<PreSharedKeyProposal, F, E>(&f, Ghost(start));
        if r.is_err() {
            return r;
        }
        let r = self.retain_step::<ReInitProposal, F, E>(&f, Ghost(start));
        if r.is_err() {
            return r;
        }
        let r = self.retain_step::<ExternalInit, F, E>(&f, Ghost(start));
        if r.is_err() {
            return r;
        }
        let r = self.retain_step::<ExtensionList, F, E>(&f, Ghost(start));
        if r.is_err() {
            return r;
        }
        proof {
            assert(retain_outcome(start, *self, f, Ok(()), KIND_CUSTOM));
        }
        Ok(())
    }

    /// The order of `iter_proposals`.
    pub open spec fn iter_order(self) -> Seq<ProposalInfo<Proposal>> {
        self.bucket_of(KIND_ADD) + self.bucket_of(KIND_UPDATE) + self.bucket_of(KIND_REMOVE)
            + self.bucket_of(KIND_RE_INIT) + self.bucket_of(KIND_PSK) + self.bucket_of(KIND_EXTERNAL_INIT)
            + self.bucket_of(KIND_GROUP_CONTEXT_EXTENSIONS) + self.bucket_of(KIND_CUSTOM)
    }

    /// All proposals, borrowed: adds, updates, removes, reinits, pre-shared
    /// keys, external inits, group context extensions, then custom ones.
    pub fn iter_proposals(&self) -> (r: Vec<ProposalInfo<BorrowedProposal<'_>>>)
        ensures
            owned_all(r@) == self.iter_order(),
    {
        let mut r: Vec<ProposalInfo<BorrowedProposal<'_>>> = Vec::new();
        proof {
            assert(owned_all(r@) =~= Seq::empty());
        }
        push_borrowed::<AddProposal>(self, &mut r);
        push_borrowed::<UpdateProposal>(self, &mut r);
        push_borrowed::<RemoveProposal>(self, &mut r);
        push_borrowed::<ReInitProposal>(self, &mut r);
        push_borrowed::<PreSharedKeyProposal>(self, &mut r);
        push_borrowed::<ExternalInit>(self, &mut r);
        push_borrowed::<ExtensionList>(self, &mut r);
        push_borrowed::<CustomProposal>(self, &mut r);
        proof {
            assert(Seq::<ProposalInfo<Proposal>>::empty() + self.bucket_of(KIND_ADD) =~= self.bucket_of(KIND_ADD));
        }
        r
    }

    /// The order in which a commit applies membership changes: updates, then
    /// removes, then adds.
    pub open spec fn membership_order(self) -> Seq<ProposalInfo<Proposal>> {
        self.bucket_of(KIND_UPDATE) + self.bucket_of(KIND_REMOVE) + self.bucket_of(KIND_ADD)
    }

    /// The membership changes in the order a commit applies them: updates,
    /// then removes, then adds.
    pub fn membership_changes(&self) -> (r: Vec<ProposalInfo<BorrowedProposal<'_>>>)
        ensures
            owned_all(r@) == self.membership_order(),
    {
        let mut r: Vec<ProposalInfo<BorrowedProposal<'_>>> = Vec::new();
        proof {
            assert(owned_all(r@) =~= Seq::empty());
        }
        push_borrowed::<UpdateProposal>(self, &mut r);
        push_borrowed::<RemoveProposal>(self, &mut r);
        push_borrowed::<AddProposal>(self, &mut r);
        proof {
            assert(Seq::<ProposalInfo<Proposal>>::empty() + self.bucket_of(KIND_UPDATE) =~= self.bucket_of(KIND_UPDATE));
        }
        r
    }

    /// All proposals, consuming the bundle: custom ones, external inits,
    /// pre-shared keys, adds, updates, removes, reinits, then group context
    /// extensions.
    pub fn into_proposals(self) -> (r: Vec<ProposalInfo<Proposal>>)
        ensures
            r@ == self.bucket_of(KIND_CUSTOM) + self.bucket_of(KIND_EXTERNAL_INIT)
                + self.bucket_of(KIND_PSK) + self.bucket_of(KIND_ADD) + self.bucket_of(KIND_UPDATE)
                + self.bucket_of(KIND_REMOVE) + self.bucket_of(KIND_RE_INIT)
                + self.bucket_of(KIND_GROUP_CONTEXT_EXTENSIONS),
    {
        let ghost b = self;
        proof {
            AddProposal::lemma_bucket(b);
            UpdateProposal::lemma_bucket(b);
            RemoveProposal::lemma_bucket(b);
            PreSharedKeyProposal::lemma_bucket(b);
            ReInitProposal::lemma_bucket(b);
            ExternalInit::lemma_bucket(b);
            ExtensionList::lemma_bucket(b);
            CustomProposal::lemma_bucket(b);
        }
        let mut r: Vec<ProposalInfo<Proposal>> = Vec::new();
        append_wrapped::<CustomProposal>(self.custom_proposals, &mut r);
        proof {
            assert(r@ =~= b.bucket_of(KIND_CUSTOM));
        }
        append_wrapped::<ExternalInit>(self.external_initializations, &mut r);
        append_wrapped::<PreSharedKeyProposal>(self.psks, &mut r);
        append_wrapped::<AddProposal>(self.additions, &mut r);
        append_wrapped::<UpdateProposal>(self.updates, &mut r);
        append_wrapped::<RemoveProposal>(self.removals, &mut r);
        append_wrapped::<ReInitProposal>(self.reinitializations, &mut r);
        append_wrapped::<ExtensionList>(self.group_context_extensions, &mut r);
        r
    }

    /// The proposals of `into_proposals`, by-value ones in full and
    /// by-reference ones as their reference; those from custom rules are
    /// dropped.
    pub fn into_proposals_or_refs(self) -> (r: Vec<ProposalOrRef>)
        ensures
            r@ == proposals_or_refs(
                self.bucket_of(KIND_CUSTOM) + self.bucket_of(KIND_EXTERNAL_INIT)
                    + self.bucket_of(KIND_PSK) + self.bucket_of(KIND_ADD) + self.bucket_of(KIND_UPDATE)
                    + self.bucket_of(KIND_REMOVE) + self.bucket_of(KIND_RE_INIT)
                    + self.bucket_of(KIND_GROUP_CONTEXT_EXTENSIONS),
            ),
    {
        let all = self.into_proposals();
        let ghost whole = all@;
        assert(whole.len() <= usize::MAX) by {
            assert(all@.len() == all.len());
        }
        let mut rest = all;
        let mut n: usize = 0;
        let mut r: Vec<ProposalOrRef> = Vec::new();
        while rest.len() > 0
            invariant
                whole.len() <= usize::MAX,
                n + rest@.len() == whole.len(),
                rest@ == whole.skip(n as int),
                r@ == proposals_or_refs(whole.take(n as int)),
            decreases rest@.len(),
        {
            let p = rest.remove(0);
            proof {
                assert(p == whole[n as int]);
                assert(whole.take(n + 1).drop_last() =~= whole.take(n as int));
            }
            match p.source {
                ProposalSource::ByValue => r.push(ProposalOrRef::Proposal(Box::new(p.proposal))),
                ProposalSource::ByReference(reference) => r.push(ProposalOrRef::Reference(reference)),
                ProposalSource::CustomRule(_) => {},
            }
            n = n + 1;
        }
        proof {
            assert(whole.take(n as int) =~= whole);
        }
        r
    }

    /// A bundle holding `items`, each in the bucket of its kind.
    pub fn from_proposals(items: Vec<ProposalInfo<Proposal>>) -> (r: ProposalBundle)
        ensures
            forall|k: u8| #[trigger] r.bucket_of(k) == of_kind(items@, k),
            r.update_senders@.len() == 0,
    {
        let ghost whole = items@;
        assert(whole.len() <= usize::MAX) by {
            assert(items@.len() == items.len());
        }
        let mut rest = items;
        let mut n: usize = 0;
        let mut r = ProposalBundle::new();
        proof {
            assert forall|k: u8| #[trigger] r.bucket_of(k) == of_kind(whole.take(0), k) by {
                assert(r.bucket_of(k) =~= Seq::empty());
            }
        }
        while rest.len() > 0
            invariant
                n + rest@.len() == whole.len(),
                rest@ == whole.skip(n as int),
                whole.len() <= usize::MAX,
                forall|k: u8| #[trigger] r.bucket_of(k) == of_kind(whole.take(n as int), k),
                r.update_senders@.len() == 0,
            decreases rest@.len(),
        {
            let p = rest.remove(0);
            proof {
                assert(p == whole[n as int]);
                assert(whole.take(n + 1).drop_last() =~= whole.take(n as int));
            }
            r.add(p.proposal, p.sender, p.source);
            n = n + 1;
        }
        proof {
            assert(whole.take(n as int) =~= whole);
        }
        r
    }

    /// Types of the custom proposals in the bundle, each once, in order of
    /// first appearance.
    pub fn custom_proposal_types(&self) -> (r: Vec<ProposalType>)
        ensures
            r@ == first_occurrences(self.custom_proposals@.map_values(|x: ProposalInfo<CustomProposal>| x.proposal.proposal_type)),
    {
        let ghost tf = |x: ProposalInfo<CustomProposal>| x.proposal.proposal_type;
        let mut types: Vec<ProposalType> = Vec::new();
        let mut i: usize = 0;
        while i < self.custom_proposals.len()
            invariant
                i <= self.custom_proposals@.len(),
                tf == (|x: ProposalInfo<CustomProposal>| x.proposal.proposal_type),
                types@ == self.custom_proposals@.take(i as int).map_values(tf),
            decreases self.custom_proposals@.len() - i,
        {
            types.push(self.custom_proposals[i].proposal.proposal_type());
            proof {
                assert(self.custom_proposals@.take(i + 1).map_values(tf) =~= self.custom_proposals@.take(i as int).map_values(tf).push(tf(self.custom_proposals@[i as int])));
            }
            i = i + 1;
        }
        proof {
            assert(self.custom_proposals@.take(i as int) =~= self.custom_proposals@);
        }
        unique_types(types)
    }

    /// The standard proposal types present in the bundle: add, update,
    /// remove, reinit, pre-shared key, external init, group context
    /// extensions, in that order.
    pub open spec fn present_types(self) -> Seq<ProposalType> {
        type_if(self.additions@.len() > 0, ADD_PROPOSAL_TYPE)
            + type_if(self.updates@.len() > 0, UPDATE_PROPOSAL_TYPE)
            + type_if(self.removals@.len() > 0, REMOVE_PROPOSAL_TYPE)
            + type_if(self.reinitializations@.len() > 0, RE_INIT_PROPOSAL_TYPE)
            + type_if(self.psks@.len() > 0, PSK_PROPOSAL_TYPE)
            + type_if(self.external_initializations@.len() > 0, EXTERNAL_INIT_PROPOSAL_TYPE)
            + type_if(self.group_context_extensions@.len() > 0, GROUP_CONTEXT_EXTENSIONS_PROPOSAL_TYPE)
    }

    /// Proposal types in use in the bundle: the standard ones present, then
    /// the custom ones.
    pub fn proposal_types(&self) -> (r: Vec<ProposalType>)
        ensures
            r@ == self.present_types() + first_occurrences(
                self.custom_proposals@.map_values(|x: ProposalInfo<CustomProposal>| x.proposal.proposal_type),
            ),
    {
        let mut r: Vec<ProposalType> = Vec::new();
        let ghost prev = r@;
        if self.additions.len() > 0 {
            r.push(ADD_PROPOSAL_TYPE);
        }
        assert(r@ =~= prev + type_if(self.additions@.len() > 0, ADD_PROPOSAL_TYPE));
        let ghost prev = r@;
        if self.updates.len() > 0 {
            r.push(UPDATE_PROPOSAL_TYPE);
        }
        assert(r@ =~= prev + type_if(self.updates@.len() > 0, UPDATE_PROPOSAL_TYPE));
        let ghost prev = r@;
        if self.removals.len() > 0 {
            r.push(REMOVE_PROPOSAL_TYPE);
        }
        assert(r@ =~= prev + type_if(self.removals@.len() > 0, REMOVE_PROPOSAL_TYPE));
        let ghost prev = r@;
        if self.reinitializations.len() > 0 {
            r.push(RE_INIT_PROPOSAL_TYPE);
        }
        assert(r@ =~= prev + type_if(self.reinitializations@.len() > 0, RE_INIT_PROPOSAL_TYPE));
        let ghost prev = r@;
        if self.psks.len() > 0 {
            r.push(PSK_PROPOSAL_TYPE);
        }
        assert(r@ =~= prev + type_if(self.psks@.len() > 0, PSK_PROPOSAL_TYPE));
        let ghost prev = r@;
        if self.external_initializations.len() > 0 {
            r.push(EXTERNAL_INIT_PROPOSAL_TYPE);
        }
        assert(r@ =~= prev + type_if(self.external_initializations@.len() > 0, EXTERNAL_INIT_PROPOSAL_TYPE));
        let ghost prev = r@;
        if self.group_context_extensions.len() > 0 {
            r.push(GROUP_CONTEXT_EXTENSIONS_PROPOSAL_TYPE);
        }
        assert(r@ =~= prev + type_if(self.group_context_extensions@.len() > 0, GROUP_CONTEXT_EXTENSIONS_PROPOSAL_TYPE));
        assert(r@ =~= self.present_types());
        let mut custom = self.custom_proposal_types();
        r.append(&mut custom);
        r
    }
}

} // verus!
