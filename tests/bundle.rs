use mls_core::bundle::{
    BorrowedProposal, ProposalBundle, ProposalInfo, ProposalSource,
};
use mls_core::extension::ExtensionList;
use mls_core::filter::{
    by_ref_or_value_str, PassThroughProposalFilter, ProposalFilter, ProposalFilterContext,
    ProposalFilterError, SimpleProposalFilter,
};
use mls_core::proposal::{
    PreSharedKeyProposal, PskId, ReInitProposal,
    CustomProposal, ExternalInit, LeafIndex, Proposal, ProposalOrRef, ProposalRef,
    RemoveProposal, Sender,
};

fn remove(leaf: u32) -> Proposal {
    Proposal::Remove(RemoveProposal { to_remove: LeafIndex(leaf) })
}

fn custom(t: u16) -> Proposal {
    Proposal::Custom(CustomProposal::new(t, vec![t as u8]))
}

fn member(i: u32) -> Sender {
    Sender::Member(LeafIndex(i))
}

#[test]
fn add_puts_each_kind_in_its_bucket() {
    let mut b = ProposalBundle::new();
    b.add(remove(1), member(0), ProposalSource::ByValue);
    b.add(Proposal::ExternalInit(ExternalInit { kem_output: vec![1] }), member(0), ProposalSource::ByValue);
    b.add(remove(2), member(1), ProposalSource::ByReference(ProposalRef([1; 16])));
    assert_eq!(b.length(), 3);
    assert_eq!(b.remove_proposals().len(), 2);
    assert_eq!(b.remove_proposals()[1].proposal().to_remove, LeafIndex(2));
    assert_eq!(b.external_init_proposals().len(), 1);
    assert!(b.add_proposals().is_empty());
}

#[test]
fn iteration_orders() {
    let mut b = ProposalBundle::new();
    b.add(custom(0xf000), member(0), ProposalSource::ByValue);
    b.add(Proposal::GroupContextExtensions(ExtensionList::new()), member(0), ProposalSource::ByValue);
    b.add(remove(3), member(0), ProposalSource::ByReference(ProposalRef([2; 16])));
    b.add(remove(4), member(0), ProposalSource::CustomRule(true));

    let kinds: Vec<u16> = b.iter_proposals().iter().map(|p| match p.proposal {
        BorrowedProposal::Remove(_) => 3,
        BorrowedProposal::GroupContextExtensions(_) => 7,
        BorrowedProposal::Custom(c) => c.proposal_type,
        _ => 0,
    }).collect();
    assert_eq!(kinds, vec![3, 3, 7, 0xf000]);

    let owned: Vec<u16> = b.clone().into_proposals().iter().map(|p| p.proposal.proposal_type()).collect();
    assert_eq!(owned, vec![0xf000, 3, 3, 7]);

    let refs = b.into_proposals_or_refs();
    assert_eq!(refs.len(), 3);
    assert_eq!(refs[0], ProposalOrRef::Proposal(Box::new(custom(0xf000))));
    assert_eq!(refs[1], ProposalOrRef::Reference(ProposalRef([2; 16])));
    assert_eq!(refs[2], ProposalOrRef::Proposal(Box::new(Proposal::GroupContextExtensions(ExtensionList::new()))));
}

#[test]
fn membership_changes_are_updates_then_removes_then_adds() {
    let items = vec![
        ProposalInfo { proposal: remove(5), sender: member(0), source: ProposalSource::ByValue },
        ProposalInfo { proposal: remove(6), sender: member(0), source: ProposalSource::ByValue },
    ];
    let b = ProposalBundle::from_proposals(items);
    let changes = b.membership_changes();
    assert_eq!(changes.len(), 2);
    assert!(matches!(changes[0].proposal, BorrowedProposal::Remove(r) if r.to_remove == LeafIndex(5)));
}

#[test]
fn remove_by_index() {
    let mut b = ProposalBundle::new();
    b.add(remove(1), member(0), ProposalSource::ByValue);
    b.add(remove(2), member(0), ProposalSource::ByValue);
    b.remove::<RemoveProposal>(0);
    assert_eq!(b.by_type::<RemoveProposal>().len(), 1);
    assert_eq!(b.by_type::<RemoveProposal>()[0].proposal().to_remove, LeafIndex(2));
    b.remove::<RemoveProposal>(5);
    assert_eq!(b.by_type::<RemoveProposal>().len(), 1);
}

#[test]
fn retain_by_type_keeps_accepted_and_reports_first_error() {
    let mut b = ProposalBundle::new();
    for i in 0..5 {
        b.add(remove(i), member(0), ProposalSource::ByValue);
    }
    let r: Result<(), u32> = b.retain_by_type::<RemoveProposal, _, _>(|p| {
        let l = p.proposal.to_remove.0;
        if l == 1 || l == 3 { Err(l) } else { Ok(l % 2 == 0) }
    });
    assert_eq!(r, Err(1));
    let left: Vec<u32> = b.remove_proposals().iter().map(|p| p.proposal.to_remove.0).collect();
    assert_eq!(left, vec![0, 2, 4]);
}

#[test]
fn retain_custom_and_types() {
    let mut b = ProposalBundle::new();
    b.add(custom(0xf001), member(0), ProposalSource::ByValue);
    b.add(custom(0xf002), member(0), ProposalSource::ByValue);
    b.add(custom(0xf001), member(1), ProposalSource::ByValue);
    b.add(remove(1), member(0), ProposalSource::ByValue);
    assert_eq!(b.custom_proposal_types(), vec![0xf001, 0xf002]);
    assert_eq!(b.proposal_types(), vec![3, 0xf001, 0xf002]);
    let r: Result<(), ()> = b.retain_custom(|p| Ok(p.proposal.proposal_type == 0xf002));
    assert_eq!(r, Ok(()));
    assert_eq!(b.custom_proposal_types(), vec![0xf002]);
}

#[test]
fn retain_stops_after_bucket_with_error() {
    let mut b = ProposalBundle::new();
    b.add(remove(1), member(0), ProposalSource::ByValue);
    b.add(Proposal::ExternalInit(ExternalInit { kem_output: vec![] }), member(0), ProposalSource::ByValue);
    let r: Result<(), &str> = b.retain(|p| match p.proposal {
        BorrowedProposal::Remove(_) => Err("no removes"),
        _ => Ok(false),
    });
    assert_eq!(r, Err("no removes"));
    assert!(b.remove_proposals().is_empty());
    assert_eq!(b.external_init_proposals().len(), 1);
}

#[test]
fn group_context_extensions_accessors() {
    let mut b = ProposalBundle::new();
    assert!(b.group_context_extensions_proposal().is_none());
    b.add(Proposal::GroupContextExtensions(ExtensionList::new()), member(3), ProposalSource::ByValue);
    assert_eq!(b.group_context_extensions_proposal().unwrap().sender(), member(3));
    b.clear_group_context_extensions();
    assert!(b.group_context_ext_proposals().is_empty());
}

#[test]
fn proposal_info_sources() {
    let by_ref = ProposalInfo { proposal: custom(0xf000), sender: member(2), source: ProposalSource::ByReference(ProposalRef([0; 16])) };
    assert!(by_ref.is_by_reference());
    assert!(!by_ref.is_by_value());
    let info = ProposalInfo { proposal: CustomProposal::new(0xf000, vec![]), sender: member(2), source: ProposalSource::ByReference(ProposalRef([0; 16])) };
    let expanded = info.expand(vec![remove(1), remove(2)]);
    assert_eq!(expanded.len(), 2);
    assert_eq!(expanded[1].source, ProposalSource::CustomRule(false));
    assert_eq!(expanded[1].sender, member(2));
    let made = ProposalInfo::new(remove(9), member(1), true);
    assert!(made.is_by_value());
    let mapped = made.map(|p| p.proposal_type());
    assert_eq!(mapped.proposal, 3);
}

#[test]
fn simple_filter_judges_each_proposal() {
    let mut b = ProposalBundle::new();
    b.add(remove(1), member(0), ProposalSource::ByValue);
    b.add(remove(2), member(5), ProposalSource::ByValue);
    let filter = SimpleProposalFilter::new(member(0), |ctx: &ProposalFilterContext, _p: &BorrowedProposal| {
        if ctx.proposer == ctx.committer { Ok(()) } else { Err(ProposalFilterError::user_defined("foreign".to_string())) }
    });
    assert_eq!(filter.validate(&b), Err(ProposalFilterError::UserDefined("foreign".to_string())));
    let kept = filter.filter(b).unwrap();
    assert_eq!(kept.remove_proposals().len(), 1);
    assert_eq!(kept.remove_proposals()[0].sender, member(0));
}

#[test]
fn pass_through_filter_keeps_everything() {
    let mut b = ProposalBundle::new();
    b.add(remove(1), member(0), ProposalSource::ByValue);
    let f: PassThroughProposalFilter<()> = PassThroughProposalFilter::new();
    assert_eq!(f.validate(&b), Ok(()));
    assert_eq!(f.filter(b).unwrap().length(), 1);
}

#[test]
fn by_ref_or_value_wording() {
    assert_eq!(by_ref_or_value_str(true), "by reference");
    assert_eq!(by_ref_or_value_str(false), "by value");
}

#[test]
fn bucket_getters() {
    let mut b = ProposalBundle::new();
    b.add(
        Proposal::Psk(PreSharedKeyProposal { psk_id: PskId::External(vec![1]), psk_nonce: vec![0; 32] }),
        member(0),
        ProposalSource::ByValue,
    );
    b.add(
        Proposal::ReInit(ReInitProposal { group_id: vec![1], version: 1, cipher_suite: mls_core::CipherSuite::new(2), extensions: ExtensionList::new() }),
        member(1),
        ProposalSource::ByValue,
    );
    assert_eq!(b.psk_proposals().len(), 1);
    assert_eq!(b.reinit_proposals()[0].sender, member(1));
    assert!(b.update_proposals().is_empty());
    assert!(b.update_proposal_senders().is_empty());
    assert_eq!(b.proposal_types(), vec![5, 4]);
}
