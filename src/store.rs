//! Proposals received by reference, kept until a commit uses them, and the
//! resolution of a commit's proposal list against them.
use vstd::prelude::*;

use crate::bundle::{of_kind, ProposalBundle, ProposalInfo, ProposalSource};
use crate::proposal::{PendingProposal, Proposal, ProposalOrRef, ProposalRef, Sender};

verus! {

/// Why a commit's proposal list could not be resolved.
#[derive(Debug, Clone, Copy, PartialEq, Eq)]
pub enum ResolveError {
    /// A reference names no stored proposal (or one already used).
    ProposalNotFound(ProposalRef),
}

/// Index of the first entry of `es` stored under `r`, or `es.len()`.
pub open spec fn index_of(es: Seq<(ProposalRef, PendingProposal)>, r: ProposalRef) -> int
    decreases es.len(),
{
    if es.len() == 0 {
        0
    } else if es[0].0.0@ == r.0@ {
        0
    } else {
        1 + index_of(es.drop_first(), r)
    }
}

proof fn lemma_index_of(es: Seq<(ProposalRef, PendingProposal)>, r: ProposalRef)
    ensures
        0 <= index_of(es, r) <= es.len(),
        index_of(es, r) < es.len() ==> es[index_of(es, r)].0.0@ == r.0@,
        forall|j: int| 0 <= j < index_of(es, r) ==> #[trigger] es[j].0.0@ != r.0@,
    decreases es.len(),
{
    if es.len() > 0 && es[0].0.0@ != r.0@ {
        lemma_index_of(es.drop_first(), r);
        assert forall|j: int| 0 <= j < index_of(es, r) implies #[trigger] es[j].0.0@ != r.0@ by {
            if j > 0 {
                assert(es[j] == es.drop_first()[j - 1]);
            }
        }
    }
}

fn refs_equal(a: &ProposalRef, b: &ProposalRef) -> (r: bool)
    ensures
        r == (a.0@ == b.0@),
{
    let mut i: usize = 0;
    while i < 16
        invariant
            i <= 16,
            a.0@.len() == 16 && b.0@.len() == 16,
            forall|j: int| 0 <= j < i ==> a.0@[j] == b.0@[j],
        decreases 16 - i,
    {
        if a.0[i] != b.0[i] {
            return false;
        }
        i = i + 1;
    }
    assert(a.0@ =~= b.0@);
    true
}

/// Resolve `items` in order against the stored entries `es`, appending to
/// `acc`: a proposal given in full is the committer's, by value; a
/// reference takes the stored proposal out of `es`, with its sender.
pub open spec fn resolve_from(
    items: Seq<ProposalOrRef>,
    es: Seq<(ProposalRef, PendingProposal)>,
    acc: Seq<ProposalInfo<Proposal>>,
    committer: Sender,
) -> Result<Seq<ProposalInfo<Proposal>>, ResolveError>
    decreases items.len(),
{
    if items.len() == 0 {
        Ok(acc)
    } else {
        match items[0] {
            ProposalOrRef::Proposal(p) => resolve_from(
                items.drop_first(),
                es,
                acc.push(ProposalInfo { proposal: *p, sender: committer, source: ProposalSource::ByValue }),
                committer,
            ),
            ProposalOrRef::Reference(r) => {
                let i = index_of(es, r);
                if i < es.len() {
                    resolve_from(
                        items.drop_first(),
                        es.remove(i),
                        acc.push(ProposalInfo { proposal: es[i].1.proposal, sender: es[i].1.sender, source: ProposalSource::ByReference(r) }),
                        committer,
                    )
                } else {
                    Err(ResolveError::ProposalNotFound(r))
                }
            },
        }
    }
}

/// Proposals received by reference in the current epoch, by reference.
pub struct ProposalStore {
    pub entries: Vec<(ProposalRef, PendingProposal)>,
}

impl ProposalStore {
    pub fn new() -> (r: ProposalStore)
        ensures
            r.entries@.len() == 0,
    {
        ProposalStore { entries: Vec::new() }
    }

    pub fn len(&self) -> (r: usize)
        ensures
            r == self.entries@.len(),
    {
        self.entries.len()
    }

    fn find(&self, r: &ProposalRef) -> (i: usize)
        ensures
            i == index_of(self.entries@, *r),
    {
        proof {
            lemma_index_of(self.entries@, *r);
        }
        let mut i: usize = 0;
        while i < self.entries.len()
            invariant
                i <= self.entries@.len(),
                forall|j: int| 0 <= j < i ==> #[trigger] self.entries@[j].0.0@ != r.0@,
                0 <= index_of(self.entries@, *r) <= self.entries@.len(),
                index_of(self.entries@, *r) < self.entries@.len() ==> self.entries@[index_of(self.entries@, *r)].0.0@ == r.0@,
                forall|j: int| 0 <= j < index_of(self.entries@, *r) ==> #[trigger] self.entries@[j].0.0@ != r.0@,
            decreases self.entries@.len() - i,
        {
            if refs_equal(&self.entries[i].0, r) {
                return i;
            }
            i = i + 1;
        }
        i
    }

    /// Keep `proposal` under `r`, replacing a proposal stored under `r`.
    pub fn insert(&mut self, r: ProposalRef, proposal: PendingProposal)
        ensures
            ({
                let i = index_of(old(self).entries@, r);
                if i < old(self).entries@.len() {
                    final(self).entries@ == old(self).entries@.update(i, (r, proposal))
                } else {
                    final(self).entries@ == old(self).entries@.push((r, proposal))
                }
            }),
    {
        let i = self.find(&r);
        if i < self.entries.len() {
            self.entries.set(i, (r, proposal));
        } else {
            self.entries.push((r, proposal));
        }
    }

    /// The proposal stored under `r`.
    pub fn get(&self, r: &ProposalRef) -> (p: Option<&PendingProposal>)
        ensures
            ({
                let i = index_of(self.entries@, *r);
                if i < self.entries@.len() {
                    p == Some(&self.entries@[i].1)
                } else {
                    p.is_none()
                }
            }),
    {
        let i = self.find(r);
        if i < self.entries.len() {
            Some(&self.entries[i].1)
        } else {
            None
        }
    }

    /// Drop every stored proposal, as a new epoch begins.
    pub fn clear(&mut self)
        ensures
            final(self).entries@.len() == 0,
    {
        self.entries = Vec::new();
    }

    /// Build the bundle of a commit from its proposal list: proposals given
    /// in full are the committer's, references take their proposal (and
    /// sender) out of the store, in list order.
    pub fn resolve(self, items: Vec<ProposalOrRef>, committer: Sender) -> (r: Result<ProposalBundle, ResolveError>)
        ensures
            match r {
                Ok(b) => exists|acc: Seq<ProposalInfo<Proposal>>|
                    resolve_from(items@, self.entries@, Seq::empty(), committer) == Ok::<Seq<ProposalInfo<Proposal>>, ResolveError>(acc)
                        && forall|k: u8| #[trigger] b.bucket_of(k) == of_kind(acc, k),
                Err(e) => resolve_from(items@, self.entries@, Seq::empty(), committer) == Err::<Seq<ProposalInfo<Proposal>>, ResolveError>(e),
            },
    {
        let ghost whole = items@;
        let ghost es0 = self.entries@;
        let mut store = self;
        let mut rest = items;
        let mut acc: Vec<ProposalInfo<Proposal>> = Vec::new();
        while rest.len() > 0
            invariant
                whole == items@,
                es0 == self.entries@,
                resolve_from(whole, es0, Seq::empty(), committer) == resolve_from(rest@, store.entries@, acc@, committer),
            decreases rest@.len(),
        {
            let ghost before = rest@;
            let item = rest.remove(0);
            assert(item == before[0]);
            assert(rest@ == before.drop_first());
            match item {
                ProposalOrRef::Proposal(p) => {
                    acc.push(ProposalInfo { proposal: *p, sender: committer, source: ProposalSource::ByValue });
                },
                ProposalOrRef::Reference(reference) => {
                    let i = store.find(&reference);
                    if i < store.entries.len() {
                        let (_, pending) = store.entries.remove(i);
                        acc.push(ProposalInfo { proposal: pending.proposal, sender: pending.sender, source: ProposalSource::ByReference(reference) });
                    } else {
                        assert(before[0] == ProposalOrRef::Reference(reference));
                        assert(resolve_from(before, store.entries@, acc@, committer) == Err::<Seq<ProposalInfo<Proposal>>, ResolveError>(ResolveError::ProposalNotFound(reference)));
                        return Err(ResolveError::ProposalNotFound(reference));
                    }
                },
            }
        }
        let b = ProposalBundle::from_proposals(acc);
        Ok(b)
    }
}

} // verus!
