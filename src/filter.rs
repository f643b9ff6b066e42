use vstd::prelude::*;

use crate::bundle::{
    kept, owned_all, owned_info, with_proposal, BorrowedProposal, Proposable, ProposalBundle,
    ProposalInfo, KIND_CUSTOM,
};
use crate::extension::ExtensionList;
use crate::proposal::{
    AddProposal, ExternalInit, PreSharedKeyProposal, Proposal, ReInitProposal, RemoveProposal,
    UpdateProposal,
};
use crate::extension::ExtensionType;
use crate::proposal::{ProposalType, Sender};

verus! {

/// What a proposal filter knows of one proposal: who commits and who proposed.
#[derive(Debug, Clone, Copy, PartialEq, Eq, Structural)]
pub struct ProposalFilterContext {
    pub committer: Sender,
    pub proposer: Sender,
}

/// Application-defined rules applied to the proposals of a commit.
pub trait ProposalFilter {
    type Error;

    /// `r` is what `validate` may return for `proposals`.
    closed spec fn validate_outcome(&self, proposals: ProposalBundle, r: Result<(), Self::Error>) -> bool {
        arbitrary()
    }

    /// `r` is what `filter` may return for `proposals`.
    closed spec fn filter_outcome(&self, proposals: ProposalBundle, r: Result<ProposalBundle, Self::Error>) -> bool {
        arbitrary()
    }

    /// Called on a received commit: report anything that makes it invalid.
    fn validate(&self, proposals: &ProposalBundle) -> (r: Result<(), Self::Error>)
        ensures
            self.validate_outcome(*proposals, r),
    ;

    /// Called when preparing a commit: drop the by-reference proposals that
    /// would make it invalid, or fail on a by-value one that does.
    fn filter(&self, proposals: ProposalBundle) -> (r: Result<ProposalBundle, Self::Error>)
        ensures
            self.filter_outcome(proposals, r),
    ;
}

/// A filter that judges each proposal alone, through `filter`.
#[verifier::reject_recursive_types(E)]
#[verifier::reject_recursive_types(F)]
pub struct SimpleProposalFilter<F, E> where F: Fn(&ProposalFilterContext, &BorrowedProposal) -> Result<(), E> {
    committer: Sender,
    filter: F,
    phantom: core::marker::PhantomData<E>,
}

impl<F, E> SimpleProposalFilter<F, E> where F: Fn(&ProposalFilterContext, &BorrowedProposal) -> Result<(), E> {
    /// `filter` may be called on any context and proposal.
    pub closed spec fn callable(self) -> bool {
        forall|c: &ProposalFilterContext, p: &BorrowedProposal| self.filter.requires((c, p))
    }

    #[verifier::type_invariant]
    closed spec fn inv(self) -> bool {
        self.callable()
    }

    pub closed spec fn spec_committer(self) -> Sender {
        self.committer
    }

    pub closed spec fn spec_filter(self) -> F {
        self.filter
    }

    pub fn new(committer: Sender, filter: F) -> (r: Self)
        requires
            forall|c: &ProposalFilterContext, p: &BorrowedProposal| filter.requires((c, p)),
        ensures
            r.spec_committer() == committer,
            r.spec_filter() == filter,
    {
        SimpleProposalFilter { committer, filter, phantom: core::marker::PhantomData }
    }
}

/// The context in which a simple filter judges `a`.
pub open spec fn context_for(committer: Sender, a: ProposalInfo<BorrowedProposal>) -> ProposalFilterContext {
    ProposalFilterContext { committer, proposer: a.sender }
}

/// `f` accepted the proposal `info`, seen borrowed, with the given committer.
pub open spec fn passes<F, E>(f: F, committer: Sender, info: ProposalInfo<Proposal>) -> bool
    where F: Fn(&ProposalFilterContext, &BorrowedProposal) -> Result<(), E>
{
    exists|a: ProposalInfo<BorrowedProposal>, o: Result<(), E>|
        owned_info(a) == info && #[trigger] f.ensures((&context_for(committer, a), &a.proposal), o) && o is Ok
}

/// `out` is `Ok(true)` if `f` accepted `info` and `Ok(false)` if it did not.
pub open spec fn judged<F, E>(f: F, committer: Sender, info: ProposalInfo<Proposal>, out: Result<bool, E>) -> bool
    where F: Fn(&ProposalFilterContext, &BorrowedProposal) -> Result<(), E>
{
    exists|a: ProposalInfo<BorrowedProposal>, o: Result<(), E>|
        owned_info(a) == info && #[trigger] f.ensures((&context_for(committer, a), &a.proposal), o)
            && out == Ok::<bool, E>(o is Ok)
}

/// `after` holds the proposals of `before` that `f` accepted, in order.
pub open spec fn accepted_step<F, E>(f: F, committer: Sender, before: Seq<ProposalInfo<Proposal>>, after: Seq<ProposalInfo<Proposal>>) -> bool
    where F: Fn(&ProposalFilterContext, &BorrowedProposal) -> Result<(), E>
{
    exists|outs: Seq<Result<bool, E>>|
        {
            &&& outs.len() == before.len()
            &&& forall|i: int| 0 <= i < before.len() ==> #[trigger] judged(f, committer, before[i], outs[i])
            &&& after == #[trigger] kept(before, outs)
        }
}

impl<F, E> SimpleProposalFilter<F, E> where F: Fn(&ProposalFilterContext, &BorrowedProposal) -> Result<(), E> {
    /// `r` is the outcome of checking every proposal of `proposals`, in the
    /// order of `iter_proposals`: `Ok` if each passes, else the error of the
    /// first that fails.
    pub open spec fn checked(self, proposals: ProposalBundle, r: Result<(), E>) -> bool {
        &&& (r is Ok ==> forall|i: int| 0 <= i < proposals.iter_order().len()
                ==> passes(self.spec_filter(), self.spec_committer(), #[trigger] proposals.iter_order()[i]))
        &&& (r matches Err(e) ==> exists|i: int, a: ProposalInfo<BorrowedProposal>|
                #![trigger proposals.iter_order()[i], self.spec_filter().ensures((&context_for(self.spec_committer(), a), &a.proposal), Err::<(), E>(e))]
                0 <= i < proposals.iter_order().len()
                    && (forall|j: int| 0 <= j < i ==> passes(self.spec_filter(), self.spec_committer(), #[trigger] proposals.iter_order()[j]))
                    && owned_info(a) == proposals.iter_order()[i]
                    && self.spec_filter().ensures((&context_for(self.spec_committer(), a), &a.proposal), Err::<(), E>(e)))
    }

    /// `r` keeps the standard proposals of `proposals` that `filter`
    /// accepts, and the custom ones as they are.
    pub open spec fn kept_accepted(self, proposals: ProposalBundle, r: ProposalBundle) -> bool {
        &&& forall|k: u8| k < KIND_CUSTOM ==> #[trigger] accepted_step(self.spec_filter(), self.spec_committer(), proposals.bucket_of(k), r.bucket_of(k))
        &&& r.bucket_of(KIND_CUSTOM) == proposals.bucket_of(KIND_CUSTOM)
        &&& r.update_senders@ == proposals.update_senders@
    }

    /// Check every proposal of the bundle, in the order of
    /// `iter_proposals`, stopping at the first error, which is returned.
    pub fn check_all(&self, proposals: &ProposalBundle) -> (r: Result<(), E>)
        ensures
            self.checked(*proposals, r),
    {
        proof {
            use_type_invariant(self);
        }
        let all = proposals.iter_proposals();
        let mut i: usize = 0;
        while i < all.len()
            invariant
                self.callable(),
                i <= all@.len(),
                owned_all(all@) == proposals.iter_order(),
                forall|j: int| 0 <= j < i ==> passes(self.filter, self.committer, #[trigger] proposals.iter_order()[j]),
            decreases all@.len() - i,
        {
            let p = &all[i];
            let context = ProposalFilterContext { committer: self.committer, proposer: p.sender };
            let o = (self.filter)(&context, &p.proposal);
            proof {
                assert(owned_info(*p) == owned_all(all@)[i as int]);
                assert(context == context_for(self.committer, *p));
            }
            match o {
                Ok(()) => {},
                Err(e) => {
                    proof {
                        assert(proposals.iter_order()[i as int] == owned_info(*p));
                        assert(self.spec_filter().ensures((&context_for(self.spec_committer(), *p), &p.proposal), Err::<(), E>(e)));
                    }
                    return Err(e);
                },
            }
            i = i + 1;
        }
        Ok(())
    }

    fn keep_kind<T: Proposable>(&self, proposals: &mut ProposalBundle)
        ensures
            accepted_step(self.spec_filter(), self.spec_committer(), old(proposals).bucket_of(T::kind()), final(proposals).bucket_of(T::kind())),
            final(proposals).unchanged_except(*old(proposals), T::kind()),
    {
        proof {
            use_type_invariant(self);
            T::lemma_bucket(*proposals);
        }
        let ghost before = T::bucket(*proposals);
        let ghost wrap_fn = |x: ProposalInfo<T>| with_proposal(x, T::wrap(x.proposal));
        let ghost wbefore = before.map_values(wrap_fn);
        let mut rest = T::take(proposals);
        let mut keep: Vec<ProposalInfo<T>> = Vec::new();
        let ghost mut outs: Seq<Result<bool, E>> = Seq::empty();
        while rest.len() > 0
            invariant
                self.callable(),
                outs.len() <= before.len(),
                wbefore == before.map_values(wrap_fn),
                wrap_fn == (|x: ProposalInfo<T>| with_proposal(x, T::wrap(x.proposal))),
                rest@ == before.skip(outs.len() as int),
                forall|i: int| 0 <= i < outs.len() ==> #[trigger] judged(self.spec_filter(), self.spec_committer(), wbefore[i], outs[i]),
                keep@ == kept(before.take(outs.len() as int), outs),
                proposals.unchanged_except(*old(proposals), T::kind()),
            decreases rest@.len(),
        {
            let p = rest.remove(0);
            let b = ProposalInfo { proposal: T::borrow(&p.proposal), sender: p.sender, source: p.source };
            let context = ProposalFilterContext { committer: self.committer, proposer: p.sender };
            let o = (self.filter)(&context, &b.proposal);
            let accepted = o.is_ok();
            proof {
                let n = outs.len() as int;
                assert(owned_info(b) == wbefore[n]);
                assert(context == context_for(self.committer, b));
                assert(judged(self.spec_filter(), self.spec_committer(), wbefore[n], Ok::<bool, E>(accepted)));
                assert forall|i: int| 0 <= i < n + 1 implies #[trigger] judged(self.spec_filter(), self.spec_committer(), wbefore[i], outs.push(Ok::<bool, E>(accepted))[i]) by {
                    if i < n {
                        assert(outs.push(Ok::<bool, E>(accepted))[i] == outs[i]);
                    }
                }
                crate::bundle::lemma_kept_step(before, outs, n, Ok::<bool, E>(accepted));
                outs = outs.push(Ok::<bool, E>(accepted));
            }
            if accepted {
                keep.push(p);
            }
        }
        proof {
            assert(before.take(outs.len() as int) =~= before);
            crate::bundle::lemma_kept_map(before, outs, wrap_fn);
        }
        T::restore(proposals, keep);
        proof {
            T::lemma_bucket(*proposals);
        }
    }

    /// Keep the standard proposals that `filter` accepts; custom proposals
    /// are kept as they are.
    pub fn keep_accepted(&self, proposals: ProposalBundle) -> (r: ProposalBundle)
        ensures
            self.kept_accepted(proposals, r),
    {
        let mut b = proposals;
        self.keep_kind::<AddProposal>(&mut b);
        self.keep_kind::<UpdateProposal>(&mut b);
        self.keep_kind::<RemoveProposal>(&mut b);
        self.keep_kind::<PreSharedKeyProposal>(&mut b);
        self.keep_kind::<ReInitProposal>(&mut b);
        self.keep_kind::<ExternalInit>(&mut b);
        self.keep_kind::<ExtensionList>(&mut b);
        proof {
            assert forall|k: u8| k < KIND_CUSTOM implies #[trigger] accepted_step(self.spec_filter(), self.spec_committer(), proposals.bucket_of(k), b.bucket_of(k)) by {
                if k == 0 {
                } else if k == 1 {
                } else if k == 2 {
                } else if k == 3 {
                } else if k == 4 {
                } else if k == 5 {
                } else {
                }
            }
        }
        b
    }
}

impl<F, E> ProposalFilter for SimpleProposalFilter<F, E> where F: Fn(&ProposalFilterContext, &BorrowedProposal) -> Result<(), E> {
    type Error = E;

    open spec fn validate_outcome(&self, proposals: ProposalBundle, r: Result<(), E>) -> bool {
        self.checked(proposals, r)
    }

    open spec fn filter_outcome(&self, proposals: ProposalBundle, r: Result<ProposalBundle, E>) -> bool {
        r matches Ok(b) && self.kept_accepted(proposals, b)
    }

    fn validate(&self, proposals: &ProposalBundle) -> Result<(), E> {
        self.check_all(proposals)
    }

    fn filter(&self, proposals: ProposalBundle) -> Result<ProposalBundle, E> {
        Ok(self.keep_accepted(proposals))
    }
}

/// A filter that accepts everything.
pub struct PassThroughProposalFilter<E> {
    phantom: core::marker::PhantomData<E>,
}

impl<E> PassThroughProposalFilter<E> {
    pub fn new() -> (r: Self) {
        PassThroughProposalFilter { phantom: core::marker::PhantomData }
    }

    /// Accepts every bundle.
    pub fn check(&self, proposals: &ProposalBundle) -> (r: Result<(), E>)
        ensures
            r is Ok,
    {
        Ok(())
    }

    /// Keeps every proposal.
    pub fn keep_all(&self, proposals: ProposalBundle) -> (r: Result<ProposalBundle, E>)
        ensures
            r == Ok::<ProposalBundle, E>(proposals),
    {
        Ok(proposals)
    }
}

impl<E> ProposalFilter for PassThroughProposalFilter<E> {
    type Error = E;

    open spec fn validate_outcome(&self, proposals: ProposalBundle, r: Result<(), E>) -> bool {
        r is Ok
    }

    open spec fn filter_outcome(&self, proposals: ProposalBundle, r: Result<ProposalBundle, E>) -> bool {
        r == Ok::<ProposalBundle, E>(proposals)
    }

    fn validate(&self, proposals: &ProposalBundle) -> Result<(), E> {
        self.check(proposals)
    }

    fn filter(&self, proposals: ProposalBundle) -> Result<ProposalBundle, E> {
        self.keep_all(proposals)
    }
}


/// Why the proposals of a commit were refused.
#[derive(Debug, Clone, PartialEq, Eq)]
pub enum ProposalFilterError {
    /// The committer included an update proposal it sent itself.
    InvalidCommitSelfUpdate,
    /// A pre-shared key is neither external nor a resumption key for application use.
    InvalidTypeOrUsageInPreSharedKeyProposal,
    /// A pre-shared key nonce does not have the hash length.
    InvalidPskNonceLength { expected: usize, found: usize },
    /// A reinit proposal asks for an older protocol version.
    InvalidProtocolVersionInReInit { proposed: u16, original: u16 },
    /// Two proposals apply to the same leaf.
    MoreThanOneProposalForLeaf(u32),
    /// More than one group context extensions proposal.
    MoreThanOneGroupContextExtensionsProposal,
    /// More than one reinit proposal.
    MoreThanOneReInitProposal,
    /// A sender proposed a type it may not propose.
    InvalidProposalTypeForSender { proposal_type: ProposalType, sender: Sender, by_ref: bool },
    /// An external commit without exactly one external init proposal.
    ExternalCommitMustHaveExactlyOneExternalInit,
    /// An external commit without a new leaf.
    ExternalCommitMustHaveNewLeaf,
    /// An external sender tried to commit.
    ExternalSenderCannotCommit,
    /// An external commit without an update path.
    MissingUpdatePathInExternalCommit,
    /// An external commit removes someone other than the joiner's prior self.
    ExternalCommitRemovesOtherIdentity,
    /// An external commit with more than one remove proposal.
    ExternalCommitWithMoreThanOneRemove,
    /// Two pre-shared key proposals name the same key.
    DuplicatePskIds,
    /// A proposal type that an external commit may not carry.
    InvalidProposalTypeInExternalCommit(ProposalType),
    /// The committer removes itself.
    CommitterSelfRemoval,
    /// Refused by an application-defined rule.
    UserDefined(String),
    /// A non-member committed proposals by reference.
    OnlyMembersCanCommitProposalsByRef,
    /// A reinit proposal is not the only proposal.
    OtherProposalWithReInit,
    /// A remove proposal names a blank leaf.
    RemovingBlankNode(u32),
    /// A group extension that some member does not support.
    UnsupportedGroupExtension(ExtensionType),
    /// A custom proposal type that some member does not support.
    UnsupportedCustomProposal(ProposalType),
    /// A member proposer at an invalid leaf.
    InvalidMemberProposer(u32),
    /// An external sender index past the external senders extension.
    InvalidExternalSenderIndex(u32),
    /// An external sender while the group has no external senders extension.
    ExternalSenderWithoutExternalSendersExtension,
}

impl ProposalFilterError {
    /// An error raised by an application-defined rule.
    pub fn user_defined(message: String) -> (r: Self)
        ensures
            r == ProposalFilterError::UserDefined(message),
    {
        ProposalFilterError::UserDefined(message)
    }
}

/// Wording for a proposal sent by reference or by value.
pub fn by_ref_or_value_str(by_ref: bool) -> (r: &'static str)
    ensures
        by_ref ==> r@ == "by reference"@,
        !by_ref ==> r@ == "by value"@,
{
    if by_ref {
        "by reference"
    } else {
        "by value"
    }
}

} // verus!
