//! Validity rules that a bundle must meet before it is committed, checked in
//! a fixed order; the first rule broken decides the error.
use vstd::prelude::*;

use crate::bundle::{
    kind_of, owned_info, source_by_value, BorrowedProposal, ProposalBundle, ProposalInfo,
    KIND_ADD, KIND_EXTERNAL_INIT, KIND_PSK, KIND_REMOVE, KIND_UPDATE,
};
use crate::filter::ProposalFilterError;
use crate::tree::{occupied, RatchetTree};
use crate::proposal::{
    Proposal, PreSharedKeyProposal, PskId, ResumptionPskUsage, Sender, UpdateProposal, ADD_PROPOSAL_TYPE,
    GROUP_CONTEXT_EXTENSIONS_PROPOSAL_TYPE, PSK_PROPOSAL_TYPE, RE_INIT_PROPOSAL_TYPE,
    UPDATE_PROPOSAL_TYPE,
};

verus! {

/// Some update proposal of the bundle was sent by `committer`.
pub open spec fn has_self_update(b: ProposalBundle, committer: Sender) -> bool {
    exists|i: int| 0 <= i < b.updates@.len() && #[trigger] b.updates@[i].sender == committer
}

/// The committer must not commit an update proposal it sent itself.
pub fn check_no_self_update(bundle: &ProposalBundle, committer: Sender) -> (r: Result<(), ProposalFilterError>)
    ensures
        r == if has_self_update(*bundle, committer) {
            Err(ProposalFilterError::InvalidCommitSelfUpdate)
        } else {
            Ok(())
        },
{
    let mut i: usize = 0;
    while i < bundle.updates.len()
        invariant
            i <= bundle.updates@.len(),
            forall|j: int| 0 <= j < i ==> #[trigger] bundle.updates@[j].sender != committer,
        decreases bundle.updates@.len() - i,
    {
        if bundle.updates[i].sender == committer {
            return Err(ProposalFilterError::InvalidCommitSelfUpdate);
        }
        i = i + 1;
    }
    Ok(())
}

/// What an external commit (one from a non-member) must look like: exactly
/// one external init, an update path, no proposal but the external init and
/// at most one remove.
pub open spec fn external_commit_result(b: ProposalBundle, has_update_path: bool) -> Result<(), ProposalFilterError> {
    if b.external_initializations@.len() != 1 {
        Err(ProposalFilterError::ExternalCommitMustHaveExactlyOneExternalInit)
    } else if !has_update_path {
        Err(ProposalFilterError::MissingUpdatePathInExternalCommit)
    } else if b.additions@.len() > 0 {
        Err(ProposalFilterError::InvalidProposalTypeInExternalCommit(ADD_PROPOSAL_TYPE))
    } else if b.updates@.len() > 0 {
        Err(ProposalFilterError::InvalidProposalTypeInExternalCommit(UPDATE_PROPOSAL_TYPE))
    } else if b.psks@.len() > 0 {
        Err(ProposalFilterError::InvalidProposalTypeInExternalCommit(PSK_PROPOSAL_TYPE))
    } else if b.reinitializations@.len() > 0 {
        Err(ProposalFilterError::InvalidProposalTypeInExternalCommit(RE_INIT_PROPOSAL_TYPE))
    } else if b.group_context_extensions@.len() > 0 {
        Err(ProposalFilterError::InvalidProposalTypeInExternalCommit(GROUP_CONTEXT_EXTENSIONS_PROPOSAL_TYPE))
    } else if b.custom_proposals@.len() > 0 {
        Err(ProposalFilterError::InvalidProposalTypeInExternalCommit(b.custom_proposals@[0].proposal.proposal_type))
    } else if b.removals@.len() > 1 {
        Err(ProposalFilterError::ExternalCommitWithMoreThanOneRemove)
    } else {
        Ok(())
    }
}

/// The shape rules of an external commit.
pub fn check_external_commit(bundle: &ProposalBundle, has_update_path: bool) -> (r: Result<(), ProposalFilterError>)
    ensures
        r == external_commit_result(*bundle, has_update_path),
{
    if bundle.external_initializations.len() != 1 {
        Err(ProposalFilterError::ExternalCommitMustHaveExactlyOneExternalInit)
    } else if !has_update_path {
        Err(ProposalFilterError::MissingUpdatePathInExternalCommit)
    } else if bundle.additions.len() > 0 {
        Err(ProposalFilterError::InvalidProposalTypeInExternalCommit(ADD_PROPOSAL_TYPE))
    } else if bundle.updates.len() > 0 {
        Err(ProposalFilterError::InvalidProposalTypeInExternalCommit(UPDATE_PROPOSAL_TYPE))
    } else if bundle.psks.len() > 0 {
        Err(ProposalFilterError::InvalidProposalTypeInExternalCommit(PSK_PROPOSAL_TYPE))
    } else if bundle.reinitializations.len() > 0 {
        Err(ProposalFilterError::InvalidProposalTypeInExternalCommit(RE_INIT_PROPOSAL_TYPE))
    } else if bundle.group_context_extensions.len() > 0 {
        Err(ProposalFilterError::InvalidProposalTypeInExternalCommit(GROUP_CONTEXT_EXTENSIONS_PROPOSAL_TYPE))
    } else if bundle.custom_proposals.len() > 0 {
        Err(ProposalFilterError::InvalidProposalTypeInExternalCommit(bundle.custom_proposals[0].proposal.proposal_type()))
    } else if bundle.removals.len() > 1 {
        Err(ProposalFilterError::ExternalCommitWithMoreThanOneRemove)
    } else {
        Ok(())
    }
}

/// Some proposal other than a reinit is present.
pub open spec fn has_non_reinit(b: ProposalBundle) -> bool {
    b.additions@.len() > 0 || b.updates@.len() > 0 || b.removals@.len() > 0 || b.psks@.len() > 0
        || b.external_initializations@.len() > 0 || b.group_context_extensions@.len() > 0
        || b.custom_proposals@.len() > 0
}

/// At most one group context extensions proposal, at most one reinit, and a
/// reinit only alone.
pub open spec fn singleton_result(b: ProposalBundle) -> Result<(), ProposalFilterError> {
    if b.group_context_extensions@.len() > 1 {
        Err(ProposalFilterError::MoreThanOneGroupContextExtensionsProposal)
    } else if b.reinitializations@.len() > 1 {
        Err(ProposalFilterError::MoreThanOneReInitProposal)
    } else if b.reinitializations@.len() == 1 && has_non_reinit(b) {
        Err(ProposalFilterError::OtherProposalWithReInit)
    } else {
        Ok(())
    }
}

/// The rules on group context extensions and reinit proposals.
pub fn check_singletons(bundle: &ProposalBundle) -> (r: Result<(), ProposalFilterError>)
    ensures
        r == singleton_result(*bundle),
{
    if bundle.group_context_extensions.len() > 1 {
        Err(ProposalFilterError::MoreThanOneGroupContextExtensionsProposal)
    } else if bundle.reinitializations.len() > 1 {
        Err(ProposalFilterError::MoreThanOneReInitProposal)
    } else if bundle.reinitializations.len() == 1 && (bundle.additions.len() > 0
        || bundle.updates.len() > 0 || bundle.removals.len() > 0 || bundle.psks.len() > 0
        || bundle.external_initializations.len() > 0 || bundle.group_context_extensions.len() > 0
        || bundle.custom_proposals.len() > 0) {
        Err(ProposalFilterError::OtherProposalWithReInit)
    } else {
        Ok(())
    }
}

/// Leaves that the update proposals apply to: their member senders' leaves.
pub open spec fn update_leaves(s: Seq<ProposalInfo<UpdateProposal>>) -> Seq<u32>
    decreases s.len(),
{
    if s.len() == 0 {
        Seq::empty()
    } else {
        let prev = update_leaves(s.drop_last());
        match s.last().sender {
            Sender::Member(l) => prev.push(l.0),
            _ => prev,
        }
    }
}

/// Leaves that the bundle's updates and removes apply to, in order.
pub open spec fn leaf_references(b: ProposalBundle) -> Seq<u32> {
    update_leaves(b.updates@) + b.removals@.map_values(|x: ProposalInfo<crate::proposal::RemoveProposal>| x.proposal.to_remove.0)
}

/// The first element of `s[..n]` that occurs earlier in `s`, if any.
pub open spec fn first_repeat(s: Seq<u32>, n: int) -> Option<u32>
    decreases n,
{
    if n <= 0 {
        None
    } else {
        let prev = first_repeat(s, n - 1);
        if prev is Some {
            prev
        } else if s.take(n - 1).contains(s[n - 1]) {
            Some(s[n - 1])
        } else {
            None
        }
    }
}

/// No leaf may be the subject of two proposals.
pub open spec fn leaf_uniqueness_result(b: ProposalBundle) -> Result<(), ProposalFilterError> {
    match first_repeat(leaf_references(b), leaf_references(b).len() as int) {
        Some(l) => Err(ProposalFilterError::MoreThanOneProposalForLeaf(l)),
        None => Ok(()),
    }
}

fn collect_leaf_references(bundle: &ProposalBundle) -> (r: Vec<u32>)
    ensures
        r@ == leaf_references(*bundle),
{
    let mut r: Vec<u32> = Vec::new();
    let mut i: usize = 0;
    while i < bundle.updates.len()
        invariant
            i <= bundle.updates@.len(),
            r@ == update_leaves(bundle.updates@.take(i as int)),
        decreases bundle.updates@.len() - i,
    {
        proof {
            assert(bundle.updates@.take(i + 1).drop_last() =~= bundle.updates@.take(i as int));
        }
        match bundle.updates[i].sender {
            Sender::Member(l) => r.push(l.0),
            _ => {},
        }
        i = i + 1;
    }
    proof {
        assert(bundle.updates@.take(i as int) =~= bundle.updates@);
    }
    let ghost ups = r@;
    let ghost rf = |x: ProposalInfo<crate::proposal::RemoveProposal>| x.proposal.to_remove.0;
    let mut j: usize = 0;
    while j < bundle.removals.len()
        invariant
            j <= bundle.removals@.len(),
            rf == (|x: ProposalInfo<crate::proposal::RemoveProposal>| x.proposal.to_remove.0),
            r@ == ups + bundle.removals@.take(j as int).map_values(rf),
        decreases bundle.removals@.len() - j,
    {
        r.push(bundle.removals[j].proposal.to_remove.0);
        proof {
            assert(bundle.removals@.take(j + 1).map_values(rf) =~= bundle.removals@.take(j as int).map_values(rf).push(rf(bundle.removals@[j as int])));
        }
        j = j + 1;
    }
    proof {
        assert(bundle.removals@.take(j as int) =~= bundle.removals@);
    }
    r
}

/// The rule that no leaf is the subject of two proposals.
pub fn check_leaf_uniqueness(bundle: &ProposalBundle) -> (r: Result<(), ProposalFilterError>)
    ensures
        r == leaf_uniqueness_result(*bundle),
{
    let refs = collect_leaf_references(bundle);
    let mut n: usize = 0;
    while n < refs.len()
        invariant
            n <= refs@.len(),
            refs@ == leaf_references(*bundle),
            first_repeat(refs@, n as int) is None,
        decreases refs@.len() - n,
    {
        let x = refs[n];
        let mut k: usize = 0;
        while k < n
            invariant
                k <= n < refs@.len(),
                x == refs@[n as int],
                refs@ == leaf_references(*bundle),
                first_repeat(refs@, n as int) is None,
                forall|m: int| 0 <= m < k ==> refs@[m] != x,
            decreases n - k,
        {
            if refs[k] == x {
                proof {
                    assert(refs@.take(n as int)[k as int] == x);
                    assert(refs@.take(n as int).contains(x));
                    assert(first_repeat(refs@, n + 1) == Some(x));
                    lemma_first_repeat_stays(refs@, n + 1, refs@.len() as int);
                }
                return Err(ProposalFilterError::MoreThanOneProposalForLeaf(x));
            }
            k = k + 1;
        }
        proof {
            assert(!refs@.take(n as int).contains(x)) by {
                if refs@.take(n as int).contains(x) {
                    let m = choose|m: int| 0 <= m < n && refs@.take(n as int)[m] == x;
                    assert(refs@[m] == x);
                }
            }
        }
        n = n + 1;
    }
    Ok(())
}

proof fn lemma_first_repeat_stays(s: Seq<u32>, n: int, m: int)
    requires
        0 <= n <= m,
        first_repeat(s, n) is Some,
    ensures
        first_repeat(s, m) == first_repeat(s, n),
    decreases m - n,
{
    if n < m {
        lemma_first_repeat_stays(s, n, m - 1);
    }
}

/// The error for the first of `rms[..n]` that removes a blank leaf of
/// `nodes`, if any.
pub open spec fn first_blank_removal(
    rms: Seq<ProposalInfo<crate::proposal::RemoveProposal>>,
    nodes: Seq<Option<crate::node::Node>>,
    n: int,
) -> Result<(), ProposalFilterError>
    decreases n,
{
    if n <= 0 {
        Ok(())
    } else {
        let prev = first_blank_removal(rms, nodes, n - 1);
        if prev is Err {
            prev
        } else if !occupied(nodes, rms[n - 1].proposal.to_remove.0) {
            Err(ProposalFilterError::RemovingBlankNode(rms[n - 1].proposal.to_remove.0))
        } else {
            Ok(())
        }
    }
}

proof fn lemma_first_blank_removal_stays(
    rms: Seq<ProposalInfo<crate::proposal::RemoveProposal>>,
    nodes: Seq<Option<crate::node::Node>>,
    n: int,
    m: int,
)
    requires
        0 <= n <= m,
        first_blank_removal(rms, nodes, n) is Err,
    ensures
        first_blank_removal(rms, nodes, m) == first_blank_removal(rms, nodes, n),
    decreases m - n,
{
    if n < m {
        lemma_first_blank_removal_stays(rms, nodes, n, m - 1);
    }
}

/// Every removed leaf holds a member of `tree`; the first that does not
/// gives the error.
pub fn check_removed_leaves(bundle: &ProposalBundle, tree: &RatchetTree) -> (r: Result<(), ProposalFilterError>)
    ensures
        r == first_blank_removal(bundle.removals@, tree.nodes@, bundle.removals@.len() as int),
{
    let mut i: usize = 0;
    while i < bundle.removals.len()
        invariant
            i <= bundle.removals@.len(),
            first_blank_removal(bundle.removals@, tree.nodes@, i as int) is Ok,
        decreases bundle.removals@.len() - i,
    {
        let leaf = bundle.removals[i].proposal.to_remove;
        if tree.leaf(leaf).is_none() {
            proof {
                lemma_first_blank_removal_stays(bundle.removals@, tree.nodes@, i + 1, bundle.removals@.len() as int);
            }
            return Err(ProposalFilterError::RemovingBlankNode(leaf.0));
        }
        i = i + 1;
    }
    Ok(())
}

/// Some remove proposal removes the committer.
pub open spec fn removes_committer(b: ProposalBundle, committer: Sender) -> bool {
    exists|i: int| 0 <= i < b.removals@.len() && Sender::Member(#[trigger] b.removals@[i].proposal.to_remove) == committer
}

/// The committer must not remove itself.
pub fn check_no_self_removal(bundle: &ProposalBundle, committer: Sender) -> (r: Result<(), ProposalFilterError>)
    ensures
        r == if removes_committer(*bundle, committer) {
            Err(ProposalFilterError::CommitterSelfRemoval)
        } else {
            Ok(())
        },
{
    let mut i: usize = 0;
    while i < bundle.removals.len()
        invariant
            i <= bundle.removals@.len(),
            forall|j: int| 0 <= j < i ==> Sender::Member(#[trigger] bundle.removals@[j].proposal.to_remove) != committer,
        decreases bundle.removals@.len() - i,
    {
        if Sender::Member(bundle.removals[i].proposal.to_remove) == committer {
            return Err(ProposalFilterError::CommitterSelfRemoval);
        }
        i = i + 1;
    }
    Ok(())
}


/// Whether two pre-shared key identifiers name the same key.
pub open spec fn same_psk_id(a: PskId, b: PskId) -> bool {
    match (a, b) {
        (PskId::External(x), PskId::External(y)) => x@ == y@,
        (
            PskId::Resumption { usage: u1, group_id: g1, epoch: e1 },
            PskId::Resumption { usage: u2, group_id: g2, epoch: e2 },
        ) => u1 == u2 && g1@ == g2@ && e1 == e2,
        _ => false,
    }
}

pub(crate) fn bytes_equal(a: &[u8], b: &[u8]) -> (r: bool)
    ensures
        r == (a@ == b@),
{
    if a.len() != b.len() {
        return false;
    }
    let mut i: usize = 0;
    while i < a.len()
        invariant
            a@.len() == b@.len(),
            i <= a@.len(),
            forall|j: int| 0 <= j < i ==> a@[j] == b@[j],
        decreases a@.len() - i,
    {
        if a[i] != b[i] {
            return false;
        }
        i = i + 1;
    }
    assert(a@ =~= b@);
    true
}

fn psk_ids_equal(a: &PskId, b: &PskId) -> (r: bool)
    ensures
        r == same_psk_id(*a, *b),
{
    match (a, b) {
        (PskId::External(x), PskId::External(y)) => bytes_equal(x.as_slice(), y.as_slice()),
        (
            PskId::Resumption { usage: u1, group_id: g1, epoch: e1 },
            PskId::Resumption { usage: u2, group_id: g2, epoch: e2 },
        ) => *u1 == *u2 && bytes_equal(g1.as_slice(), g2.as_slice()) && *e1 == *e2,
        _ => false,
    }
}

/// The key is external, or a resumption key for application use.
pub open spec fn psk_kind_allowed(p: PreSharedKeyProposal) -> bool {
    match p.psk_id {
        PskId::External(_) => true,
        PskId::Resumption { usage, .. } => usage == ResumptionPskUsage::Application,
    }
}

/// The error that the `i`th pre-shared key proposal raises, if any.
pub open spec fn psk_error_at(ps: Seq<ProposalInfo<PreSharedKeyProposal>>, i: int, hash_len: usize) -> Option<ProposalFilterError> {
    let p = ps[i].proposal;
    if !psk_kind_allowed(p) {
        Some(ProposalFilterError::InvalidTypeOrUsageInPreSharedKeyProposal)
    } else if p.psk_nonce@.len() != hash_len {
        Some(ProposalFilterError::InvalidPskNonceLength { expected: hash_len, found: p.psk_nonce@.len() as usize })
    } else if exists|j: int| 0 <= j < i && same_psk_id(#[trigger] ps[j].proposal.psk_id, p.psk_id) {
        Some(ProposalFilterError::DuplicatePskIds)
    } else {
        None
    }
}

/// The first error among the first `n` pre-shared key proposals.
pub open spec fn first_psk_error(ps: Seq<ProposalInfo<PreSharedKeyProposal>>, n: int, hash_len: usize) -> Result<(), ProposalFilterError>
    decreases n,
{
    if n <= 0 {
        Ok(())
    } else {
        let prev = first_psk_error(ps, n - 1, hash_len);
        if prev is Err {
            prev
        } else {
            match psk_error_at(ps, n - 1, hash_len) {
                Some(e) => Err(e),
                None => Ok(()),
            }
        }
    }
}

proof fn lemma_first_psk_error_stays(ps: Seq<ProposalInfo<PreSharedKeyProposal>>, n: int, m: int, hash_len: usize)
    requires
        0 <= n <= m,
        first_psk_error(ps, n, hash_len) is Err,
    ensures
        first_psk_error(ps, m, hash_len) == first_psk_error(ps, n, hash_len),
    decreases m - n,
{
    if n < m {
        lemma_first_psk_error_stays(ps, n, m - 1, hash_len);
    }
}

/// Pre-shared key proposals: external or application resumption keys, nonces
/// of the hash length `hash_len`, no key named twice.
pub fn check_psks(bundle: &ProposalBundle, hash_len: usize) -> (r: Result<(), ProposalFilterError>)
    ensures
        r == first_psk_error(bundle.psks@, bundle.psks@.len() as int, hash_len),
{
    let ps = &bundle.psks;
    let mut i: usize = 0;
    while i < ps.len()
        invariant
            i <= ps@.len(),
            ps@ == bundle.psks@,
            first_psk_error(ps@, i as int, hash_len) is Ok,
        decreases ps@.len() - i,
    {
        let p = &ps[i].proposal;
        let err: Option<ProposalFilterError>;
        let allowed = match &p.psk_id {
            PskId::External(_) => true,
            PskId::Resumption { usage, .. } => *usage == ResumptionPskUsage::Application,
        };
        if !allowed {
            err = Some(ProposalFilterError::InvalidTypeOrUsageInPreSharedKeyProposal);
        } else if p.psk_nonce.len() != hash_len {
            err = Some(ProposalFilterError::InvalidPskNonceLength { expected: hash_len, found: p.psk_nonce.len() });
        } else {
            let mut dup = false;
            let mut j: usize = 0;
            while j < i
                invariant
                    j <= i < ps@.len(),
                    *p == ps@[i as int].proposal,
                    !dup ==> forall|k: int| 0 <= k < j ==> !same_psk_id(#[trigger] ps@[k].proposal.psk_id, p.psk_id),
                    dup ==> exists|k: int| 0 <= k < i && same_psk_id(#[trigger] ps@[k].proposal.psk_id, p.psk_id),
                decreases i - j,
            {
                if !dup && psk_ids_equal(&ps[j].proposal.psk_id, &p.psk_id) {
                    dup = true;
                }
                j = j + 1;
            }
            err = if dup { Some(ProposalFilterError::DuplicatePskIds) } else { None };
        }
        assert(err == psk_error_at(ps@, i as int, hash_len));
        match err {
            Some(e) => {
                proof {
                    lemma_first_psk_error_stays(ps@, i + 1, ps@.len() as int, hash_len);
                }
                return Err(e);
            },
            None => {},
        }
        i = i + 1;
    }
    Ok(())
}

/// Whether `sender` may send a proposal of bucket `k`: members anything but
/// an external init; external senders anything but updates and external
/// inits; a prospective member only its own add; a member joining by
/// external commit only an external init, a remove or a pre-shared key.
pub open spec fn may_propose(sender: Sender, k: u8) -> bool {
    match sender {
        Sender::Member(_) => k != KIND_EXTERNAL_INIT,
        Sender::External(_) => k != KIND_UPDATE && k != KIND_EXTERNAL_INIT,
        Sender::NewMemberProposal => k == KIND_ADD,
        Sender::NewMemberCommit => k == KIND_EXTERNAL_INIT || k == KIND_REMOVE || k == KIND_PSK,
    }
}

/// The error for the first proposal among `s[..n]` whose sender may not
/// send it, if any.
pub open spec fn first_forbidden(s: Seq<ProposalInfo<Proposal>>, n: int) -> Result<(), ProposalFilterError>
    decreases n,
{
    if n <= 0 {
        Ok(())
    } else {
        let prev = first_forbidden(s, n - 1);
        let p = s[n - 1];
        if prev is Err {
            prev
        } else if !may_propose(p.sender, kind_of(p.proposal)) {
            Err(ProposalFilterError::InvalidProposalTypeForSender {
                proposal_type: p.proposal.spec_proposal_type(),
                sender: p.sender,
                by_ref: !source_by_value(p.source),
            })
        } else {
            Ok(())
        }
    }
}

proof fn lemma_first_forbidden_stays(s: Seq<ProposalInfo<Proposal>>, n: int, m: int)
    requires
        0 <= n <= m,
        first_forbidden(s, n) is Err,
    ensures
        first_forbidden(s, m) == first_forbidden(s, n),
    decreases m - n,
{
    if n < m {
        lemma_first_forbidden_stays(s, n, m - 1);
    }
}

fn borrowed_kind(p: &BorrowedProposal) -> (r: (u8, u16))
    ensures
        r.0 == kind_of(p.owned()),
        r.1 == p.owned().spec_proposal_type(),
{
    match p {
        BorrowedProposal::Add(_) => (KIND_ADD, crate::proposal::ADD_PROPOSAL_TYPE),
        BorrowedProposal::Update(_) => (KIND_UPDATE, UPDATE_PROPOSAL_TYPE),
        BorrowedProposal::Remove(_) => (KIND_REMOVE, crate::proposal::REMOVE_PROPOSAL_TYPE),
        BorrowedProposal::Psk(_) => (KIND_PSK, PSK_PROPOSAL_TYPE),
        BorrowedProposal::ReInit(_) => (crate::bundle::KIND_RE_INIT, RE_INIT_PROPOSAL_TYPE),
        BorrowedProposal::ExternalInit(_) => (KIND_EXTERNAL_INIT, crate::proposal::EXTERNAL_INIT_PROPOSAL_TYPE),
        BorrowedProposal::GroupContextExtensions(_) => (crate::bundle::KIND_GROUP_CONTEXT_EXTENSIONS, GROUP_CONTEXT_EXTENSIONS_PROPOSAL_TYPE),
        BorrowedProposal::Custom(c) => (crate::bundle::KIND_CUSTOM, c.proposal_type),
    }
}

/// Every proposal's sender may send a proposal of its type; the first one
/// that may not, in the order of `iter_proposals`, gives the error.
pub fn check_senders(bundle: &ProposalBundle) -> (r: Result<(), ProposalFilterError>)
    ensures
        r == first_forbidden(bundle.iter_order(), bundle.iter_order().len() as int),
{
    let all = bundle.iter_proposals();
    let ghost order = bundle.iter_order();
    let mut i: usize = 0;
    while i < all.len()
        invariant
            i <= all@.len(),
            crate::bundle::owned_all(all@) == order,
            order == bundle.iter_order(),
            first_forbidden(order, i as int) is Ok,
        decreases all@.len() - i,
    {
        let p = &all[i];
        let (k, t) = borrowed_kind(&p.proposal);
        let allowed = match p.sender {
            Sender::Member(_) => k != KIND_EXTERNAL_INIT,
            Sender::External(_) => k != KIND_UPDATE && k != KIND_EXTERNAL_INIT,
            Sender::NewMemberProposal => k == KIND_ADD,
            Sender::NewMemberCommit => k == KIND_EXTERNAL_INIT || k == KIND_REMOVE || k == KIND_PSK,
        };
        proof {
            assert(owned_info(*p) == order[i as int]);
        }
        if !allowed {
            let by_value = match p.source {
                crate::bundle::ProposalSource::ByValue => true,
                crate::bundle::ProposalSource::ByReference(_) => false,
                crate::bundle::ProposalSource::CustomRule(v) => v,
            };
            proof {
                lemma_first_forbidden_stays(order, i + 1, order.len() as int);
            }
            return Err(ProposalFilterError::InvalidProposalTypeForSender { proposal_type: t, sender: p.sender, by_ref: !by_value });
        }
        i = i + 1;
    }
    Ok(())
}

/// All the rules, in order: senders may send what they sent; group context
/// extensions and reinit; one proposal per leaf; no update of the
/// committer's own; pre-shared keys; removed leaves hold members of
/// `nodes`; no removal of the committer; and, for an external commit, its
/// shape.
pub open spec fn commit_rules_result(
    b: ProposalBundle,
    nodes: Seq<Option<crate::node::Node>>,
    committer: Sender,
    external: bool,
    has_update_path: bool,
    hash_len: usize,
) -> Result<(), ProposalFilterError> {
    let senders = first_forbidden(b.iter_order(), b.iter_order().len() as int);
    if senders is Err {
        senders
    } else if singleton_result(b) is Err {
        singleton_result(b)
    } else if leaf_uniqueness_result(b) is Err {
        leaf_uniqueness_result(b)
    } else if has_self_update(b, committer) {
        Err(ProposalFilterError::InvalidCommitSelfUpdate)
    } else if first_psk_error(b.psks@, b.psks@.len() as int, hash_len) is Err {
        first_psk_error(b.psks@, b.psks@.len() as int, hash_len)
    } else if first_blank_removal(b.removals@, nodes, b.removals@.len() as int) is Err {
        first_blank_removal(b.removals@, nodes, b.removals@.len() as int)
    } else if removes_committer(b, committer) {
        Err(ProposalFilterError::CommitterSelfRemoval)
    } else if external {
        external_commit_result(b, has_update_path)
    } else {
        Ok(())
    }
}

/// Check a bundle against every rule; the first one broken gives the error.
pub fn check_commit_rules(
    bundle: &ProposalBundle,
    tree: &RatchetTree,
    committer: Sender,
    external: bool,
    has_update_path: bool,
    hash_len: usize,
) -> (r: Result<(), ProposalFilterError>)
    ensures
        r == commit_rules_result(*bundle, tree.nodes@, committer, external, has_update_path, hash_len),
{
    let senders = check_senders(bundle);
    if senders.is_err() {
        return senders;
    }
    let singles = check_singletons(bundle);
    if singles.is_err() {
        return singles;
    }
    let leaves = check_leaf_uniqueness(bundle);
    if leaves.is_err() {
        return leaves;
    }
    let own = check_no_self_update(bundle, committer);
    if own.is_err() {
        return own;
    }
    let psks = check_psks(bundle, hash_len);
    if psks.is_err() {
        return psks;
    }
    let blank = check_removed_leaves(bundle, tree);
    if blank.is_err() {
        return blank;
    }
    let removal = check_no_self_removal(bundle, committer);
    if removal.is_err() || !external {
        return removal;
    }
    check_external_commit(bundle, has_update_path)
}

} // verus!
