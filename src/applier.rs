//! Applying a bundle's membership changes to a ratchet tree: all updates,
//! then all removes, then all adds, each kind in the order it was proposed.
use vstd::prelude::*;

use crate::bundle::{ProposalBundle, ProposalInfo};
use crate::node::Node;
use crate::proposal::{AddProposal, LeafIndex, RemoveProposal, Sender, UpdateProposal};
use crate::filter::ProposalFilterError;
use crate::proposal::{LeafNode, LeafNodeSource};
use crate::rules::{check_external_commit, external_commit_result};
use crate::tree::{add_rel, remove_rel, update_rel, RatchetTree, TreeError};

verus! {

/// Tree slots, as a sequence.
pub type Slots = Seq<Option<Node>>;

/// The leaf that an update proposal replaces: its sender's.
pub open spec fn update_target(u: ProposalInfo<UpdateProposal>) -> Option<u32> {
    match u.sender {
        Sender::Member(l) => Some(l.0),
        _ => None,
    }
}

pub open spec fn update_step(before: Slots, after: Slots, u: ProposalInfo<UpdateProposal>) -> bool {
    update_target(u) matches Some(l) && update_rel(before, after, l, u.proposal.key_package.leaf_node, Ok(()))
}

pub open spec fn remove_step(before: Slots, after: Slots, rm: ProposalInfo<RemoveProposal>) -> bool {
    remove_rel(before, after, rm.proposal.to_remove.0, Ok(()))
}

pub open spec fn add_step(before: Slots, after: Slots, a: ProposalInfo<AddProposal>, index: LeafIndex) -> bool {
    add_rel(before, after, a.proposal.key_package.leaf_node, Ok(index))
}

/// `ts` are the trees passed through while applying `ups` in order.
pub open spec fn update_chain(ts: Seq<Slots>, ups: Seq<ProposalInfo<UpdateProposal>>) -> bool {
    &&& ts.len() == ups.len() + 1
    &&& forall|k: int| 0 <= k < ups.len() ==> #[trigger] update_step(ts[k], ts[k + 1], ups[k])
}

pub open spec fn remove_chain(ts: Seq<Slots>, rms: Seq<ProposalInfo<RemoveProposal>>) -> bool {
    &&& ts.len() == rms.len() + 1
    &&& forall|k: int| 0 <= k < rms.len() ==> #[trigger] remove_step(ts[k], ts[k + 1], rms[k])
}

pub open spec fn add_chain(ts: Seq<Slots>, adds: Seq<ProposalInfo<AddProposal>>, idx: Seq<LeafIndex>) -> bool {
    &&& ts.len() == adds.len() + 1
    &&& idx.len() == adds.len()
    &&& forall|k: int| 0 <= k < adds.len() ==> #[trigger] add_step(ts[k], ts[k + 1], adds[k], idx[k])
}

/// Applying `b` to `t0` passes through the trees `tu`, then `tr`, then
/// `ta`, ends at `t` and places the added members at `idx`.
pub open spec fn applied_with(
    t0: Slots,
    b: ProposalBundle,
    t: Slots,
    idx: Seq<LeafIndex>,
    tu: Seq<Slots>,
    tr: Seq<Slots>,
    ta: Seq<Slots>,
) -> bool {
    &&& tu[0] == t0 && update_chain(tu, b.updates@)
    &&& tr[0] == tu.last() && remove_chain(tr, b.removals@)
    &&& ta[0] == tr.last() && add_chain(ta, b.additions@, idx)
    &&& ta.last() == t
}

/// Applying `b` to `t0` fails with `e` at the `k`th proposal of the first
/// kind that fails, after the trees `tu`, `tr`, `ta`.
pub open spec fn failed_with(
    t0: Slots,
    b: ProposalBundle,
    e: TreeError,
    tu: Seq<Slots>,
    tr: Seq<Slots>,
    ta: Seq<Slots>,
    idx: Seq<LeafIndex>,
    k: int,
) -> bool {
    ||| {
        &&& 0 <= k < b.updates@.len()
        &&& tu[0] == t0 && update_chain(tu, b.updates@.take(k))
        &&& match update_target(b.updates@[k]) {
            None => e == TreeError::NotAMember,
            Some(l) => update_rel(tu.last(), tu.last(), l, b.updates@[k].proposal.key_package.leaf_node, Err(e)),
        }
    }
    ||| {
        &&& 0 <= k < b.removals@.len()
        &&& tu[0] == t0 && update_chain(tu, b.updates@)
        &&& tr[0] == tu.last() && remove_chain(tr, b.removals@.take(k))
        &&& remove_rel(tr.last(), tr.last(), b.removals@[k].proposal.to_remove.0, Err(e))
    }
    ||| {
        &&& 0 <= k < b.additions@.len()
        &&& tu[0] == t0 && update_chain(tu, b.updates@)
        &&& tr[0] == tu.last() && remove_chain(tr, b.removals@)
        &&& ta[0] == tr.last() && add_chain(ta, b.additions@.take(k), idx)
        &&& add_rel(ta.last(), ta.last(), b.additions@[k].proposal.key_package.leaf_node, Err(e))
    }
}

/// Apply the membership changes of `bundle` to `tree`: every update (to
/// its sender's leaf), then every remove, then every add, stopping at the
/// first one that fails. On success, the new tree and where each added
/// member was placed.
pub fn apply_proposals(tree: RatchetTree, bundle: ProposalBundle) -> (r: Result<(RatchetTree, Vec<LeafIndex>), TreeError>)
    requires
        tree.wf(),
    ensures
        match r {
            Ok((t, idx)) => t.wf() && exists|tu: Seq<Slots>, tr: Seq<Slots>, ta: Seq<Slots>|
                #[trigger] applied_with(tree.nodes@, bundle, t.nodes@, idx@, tu, tr, ta),
            Err(e) => exists|tu: Seq<Slots>, tr: Seq<Slots>, ta: Seq<Slots>, idx: Seq<LeafIndex>, k: int|
                #[trigger] failed_with(tree.nodes@, bundle, e, tu, tr, ta, idx, k),
        },
{
    let ghost t0 = tree.nodes@;
    let ghost b = bundle;
    let mut t = tree;
    let ProposalBundle { additions, updates, removals, .. } = bundle;

    let ghost ups = updates@;
    assert(ups.len() <= usize::MAX) by {
        assert(updates@.len() == updates.len());
    }
    let ghost mut tu: Seq<Slots> = seq![t0];
    let mut rest = updates;
    let mut n: usize = 0;
    while rest.len() > 0
        invariant
            t.wf(),
            t0 == tree.nodes@,
            b == bundle,
            ups == b.updates@,
            ups.len() <= usize::MAX,
            n + rest@.len() == ups.len(),
            rest@ == ups.skip(n as int),
            tu.len() == n + 1,
            tu[0] == t0,
            tu.last() == t.nodes@,
            update_chain(tu, ups.take(n as int)),
        decreases rest@.len(),
    {
        let u = rest.remove(0);
        let ghost gu = u;
        assert(gu == ups[n as int]);
        let ghost before = t.nodes@;
        match u.sender {
            Sender::Member(l) => {
                match t.update_leaf(l, u.proposal.key_package.leaf_node) {
                    Ok(()) => {
                        proof {
                            let tu2 = tu.push(t.nodes@);
                            assert forall|k: int| 0 <= k < n + 1 implies #[trigger] update_step(tu2[k], tu2[k + 1], ups.take(n + 1)[k]) by {
                                if k < n {
                                    assert(ups.take(n + 1)[k] == ups.take(n as int)[k]);
                                    assert(update_step(tu[k], tu[k + 1], ups.take(n as int)[k]));
                                } else {
                                    assert(ups.take(n + 1)[k] == gu);
                                }
                            }
                            tu = tu2;
                        }
                    },
                    Err(e) => {
                        proof {
                            assert(failed_with(t0, b, e, tu, seq![], seq![], seq![], n as int));
                        }
                        return Err(e);
                    },
                }
            },
            _ => {
                proof {
                    assert(failed_with(t0, b, TreeError::NotAMember, tu, seq![], seq![], seq![], n as int));
                }
                return Err(TreeError::NotAMember);
            },
        }
        n = n + 1;
    }
    proof {
        assert(ups.take(n as int) =~= ups);
    }

    let ghost rms = removals@;
    assert(rms.len() <= usize::MAX) by {
        assert(removals@.len() == removals.len());
    }
    let ghost mut tr: Seq<Slots> = seq![t.nodes@];
    let mut rest = removals;
    let mut n: usize = 0;
    while rest.len() > 0
        invariant
            t.wf(),
            t0 == tree.nodes@,
            b == bundle,
            ups == b.updates@,
            rms == b.removals@,
            tu[0] == t0 && update_chain(tu, ups),
            rms.len() <= usize::MAX,
            n + rest@.len() == rms.len(),
            rest@ == rms.skip(n as int),
            tr.len() == n + 1,
            tr[0] == tu.last(),
            tr.last() == t.nodes@,
            remove_chain(tr, rms.take(n as int)),
        decreases rest@.len(),
    {
        let rm = rest.remove(0);
        let ghost grm = rm;
        assert(grm == rms[n as int]);
        match t.remove_leaf(rm.proposal.to_remove) {
            Ok(()) => {
                proof {
                    let tr2 = tr.push(t.nodes@);
                    assert forall|k: int| 0 <= k < n + 1 implies #[trigger] remove_step(tr2[k], tr2[k + 1], rms.take(n + 1)[k]) by {
                        if k < n {
                            assert(rms.take(n + 1)[k] == rms.take(n as int)[k]);
                            assert(remove_step(tr[k], tr[k + 1], rms.take(n as int)[k]));
                        } else {
                            assert(rms.take(n + 1)[k] == grm);
                        }
                    }
                    tr = tr2;
                }
            },
            Err(e) => {
                proof {
                    assert(failed_with(t0, b, e, tu, tr, seq![], seq![], n as int));
                }
                return Err(e);
            },
        }
        n = n + 1;
    }
    proof {
        assert(rms.take(n as int) =~= rms);
    }

    let ghost adds = additions@;
    assert(adds.len() <= usize::MAX) by {
        assert(additions@.len() == additions.len());
    }
    let ghost mut ta: Seq<Slots> = seq![t.nodes@];
    let mut placed: Vec<LeafIndex> = Vec::new();
    let mut rest = additions;
    let mut n: usize = 0;
    while rest.len() > 0
        invariant
            t.wf(),
            t0 == tree.nodes@,
            b == bundle,
            ups == b.updates@,
            rms == b.removals@,
            adds == b.additions@,
            tu[0] == t0 && update_chain(tu, ups),
            tr[0] == tu.last() && remove_chain(tr, rms),
            adds.len() <= usize::MAX,
            n + rest@.len() == adds.len(),
            rest@ == adds.skip(n as int),
            ta.len() == n + 1,
            ta[0] == tr.last(),
            ta.last() == t.nodes@,
            add_chain(ta, adds.take(n as int), placed@),
        decreases rest@.len(),
    {
        let a = rest.remove(0);
        let ghost ga = a;
        assert(ga == adds[n as int]);
        match t.add_leaf(a.proposal.key_package.leaf_node) {
            Ok(index) => {
                let ghost old_placed = placed@;
                placed.push(index);
                proof {
                    let ta2 = ta.push(t.nodes@);
                    assert forall|k: int| 0 <= k < n + 1 implies #[trigger] add_step(ta2[k], ta2[k + 1], adds.take(n + 1)[k], placed@[k]) by {
                        if k < n {
                            assert(adds.take(n + 1)[k] == adds.take(n as int)[k]);
                            assert(placed@[k] == old_placed[k]);
                            assert(add_step(ta[k], ta[k + 1], adds.take(n as int)[k], old_placed[k]));
                        } else {
                            assert(adds.take(n + 1)[k] == ga);
                        }
                    }
                    ta = ta2;
                }
            },
            Err(e) => {
                proof {
                    assert(failed_with(t0, b, e, tu, tr, ta, placed@, n as int));
                }
                return Err(e);
            },
        }
        n = n + 1;
    }
    proof {
        assert(adds.take(n as int) =~= adds);
    }
    let r = (t, placed);
    assert(applied_with(tree.nodes@, bundle, r.0.nodes@, r.1@, tu, tr, ta));
    Ok(r)
}


/// Why an external commit could not be applied.
#[derive(Debug, Clone, PartialEq, Eq)]
pub enum ExternalJoinError {
    /// The commit breaks the shape rules of an external commit.
    Rules(ProposalFilterError),
    /// The tree refused a change.
    Tree(TreeError),
}

/// Apply an external commit: `bundle` must have the shape of an external
/// commit (one external init, at most one remove, nothing else), and
/// `joiner` is the new leaf that the commit's update path brings, which must
/// come from a commit. The bundle's changes are applied, then the joiner
/// takes the leftmost free leaf.
pub fn apply_external_commit(tree: RatchetTree, bundle: ProposalBundle, joiner: LeafNode) -> (r: Result<(RatchetTree, LeafIndex), ExternalJoinError>)
    requires
        tree.wf(),
    ensures
        external_commit_result(bundle, true) matches Err(e) ==> r == Err::<(RatchetTree, LeafIndex), ExternalJoinError>(ExternalJoinError::Rules(e)),
        external_commit_result(bundle, true) is Ok && !(joiner.leaf_node_source is Commit)
            ==> r == Err::<(RatchetTree, LeafIndex), ExternalJoinError>(ExternalJoinError::Rules(ProposalFilterError::ExternalCommitMustHaveNewLeaf)),
        r matches Err(ExternalJoinError::Tree(e)) ==> {
            &&& external_commit_result(bundle, true) is Ok
            &&& joiner.leaf_node_source is Commit
            &&& {
                ||| exists|tu: Seq<Slots>, tr: Seq<Slots>, ta: Seq<Slots>, idx: Seq<LeafIndex>, k: int|
                    #[trigger] failed_with(tree.nodes@, bundle, e, tu, tr, ta, idx, k)
                ||| exists|mid: Slots, tu: Seq<Slots>, tr: Seq<Slots>, ta: Seq<Slots>|
                    #[trigger] applied_with(tree.nodes@, bundle, mid, Seq::empty(), tu, tr, ta)
                        && add_rel(mid, mid, joiner, Err(e))
            }
        },
        r matches Ok((t, i)) ==> {
            &&& t.wf()
            &&& external_commit_result(bundle, true) is Ok
            &&& joiner.leaf_node_source is Commit
            &&& exists|mid: Slots, tu: Seq<Slots>, tr: Seq<Slots>, ta: Seq<Slots>|
                #[trigger] applied_with(tree.nodes@, bundle, mid, Seq::empty(), tu, tr, ta)
                    && add_rel(mid, t.nodes@, joiner, Ok(i))
        },
{
    match check_external_commit(&bundle, true) {
        Ok(()) => {},
        Err(e) => {
            return Err(ExternalJoinError::Rules(e));
        },
    }
    match &joiner.leaf_node_source {
        LeafNodeSource::Commit(_) => {},
        _ => {
            return Err(ExternalJoinError::Rules(ProposalFilterError::ExternalCommitMustHaveNewLeaf));
        },
    }
    let ghost b = bundle;
    let (mut t, placed) = match apply_proposals(tree, bundle) {
        Ok(x) => x,
        Err(e) => {
            return Err(ExternalJoinError::Tree(e));
        },
    };
    assert(placed@ =~= Seq::<LeafIndex>::empty()) by {
        let (tu, tr, ta) = choose|tu: Seq<Slots>, tr: Seq<Slots>, ta: Seq<Slots>| #[trigger] applied_with(tree.nodes@, b, t.nodes@, placed@, tu, tr, ta);
    }
    let ghost mid = t.nodes@;
    let ghost gj = joiner;
    match t.add_leaf(joiner) {
        Ok(i) => Ok((t, i)),
        Err(e) => {
            assert(t.nodes@ == mid);
            assert(add_rel(mid, mid, gj, Err(e)));
            Err(ExternalJoinError::Tree(e))
        },
    }
}

} // verus!
