use hotshot_new_protocol::consensus::{Consensus, ConsensusInput, ConsensusOutput, PreCutoverSeed};
use hotshot_new_protocol::data::{
    ActionKind, BlockHeader, CatchupEvidence, Certificate1, Certificate2, EpochChangeMessage, Leaf,
    Proposal, SignedProposal, StateResponse, StorageOutput, TimeoutCertificate, VidCommitment,
    VidShare,
};
use hotshot_new_protocol::membership::Membership;
use hotshot_new_protocol::outbox::Outbox;

const ME: u64 = 5;
const HEIGHT: u64 = 100;

fn qc(view: u64, leaf_commit: u64, block: u64) -> Certificate1 {
    Certificate1 { view, epoch: Some(1), leaf_commit, block_number: Some(block) }
}

fn proposal(view: u64, block: u64, payload: u64, parent: Certificate1, leaf_commit: u64) -> Proposal {
    Proposal {
        block_header: BlockHeader { block_number: block, payload_commitment: VidCommitment::V2(payload) },
        view,
        epoch: 1,
        justify_qc: parent,
        next_epoch_justify_qc: None,
        view_change_evidence: None,
        next_drb_result: None,
        state_cert: None,
        leaf_commit,
    }
}

fn genesis() -> Proposal {
    proposal(0, 0, 0, qc(0, 100, 0), 100)
}

fn node() -> (Consensus, Membership, Outbox<ConsensusOutput>) {
    let consensus = Consensus::new(ME, Leaf { proposal: genesis(), payload: None }, HEIGHT);
    let mut membership = Membership::new();
    membership.add_stake(1, ME);
    (consensus, membership, Outbox::new())
}

fn signed(p: Proposal) -> SignedProposal {
    SignedProposal { data: p, signature: vec![] }
}

fn share(view: u64, payload: u64) -> VidShare {
    VidShare { view, epoch: Some(1), payload_commitment: payload, payload_byte_len: 3 }
}

fn drain(outbox: &mut Outbox<ConsensusOutput>) -> Vec<ConsensusOutput> {
    outbox.take().into_vec()
}

/// Bring view 1's proposal to the point where this node has cast its first vote.
fn voted_in_view_1() -> (Consensus, Membership, Outbox<ConsensusOutput>) {
    let (mut c, m, mut out) = node();
    let p1 = proposal(1, 1, 11, qc(0, 100, 0), 101);
    c.apply(ConsensusInput::Proposal(9, signed(p1)), &m, &mut out);
    c.apply(ConsensusInput::VidShare(share(1, 11)), &m, &mut out);
    c.apply(ConsensusInput::StateValidated(StateResponse { view: 1, commitment: 101 }), &m, &mut out);
    c.apply(ConsensusInput::Stored(StorageOutput::Action(1, ActionKind::Vote)), &m, &mut out);
    c.apply(ConsensusInput::Stored(StorageOutput::Proposal(1, 101)), &m, &mut out);
    drain(&mut out);
    (c, m, out)
}

#[test]
fn a_proposal_waits_for_its_share() {
    let (mut c, m, mut out) = node();
    let p1 = proposal(1, 1, 11, qc(0, 100, 0), 101);
    c.apply(ConsensusInput::Proposal(9, signed(p1)), &m, &mut out);
    assert!(out.is_empty());
    assert!(c.proposal_at(1).is_none());

    c.apply(ConsensusInput::VidShare(share(1, 11)), &m, &mut out);
    let o = drain(&mut out);
    assert_eq!(o.len(), 3);
    assert!(matches!(o[0], ConsensusOutput::ProposalPaired { .. }));
    assert!(matches!(o[1], ConsensusOutput::RequestState(r) if r.view == 1 && r.parent_view == 0 && r.payload_size == 3));
    assert!(matches!(o[2], ConsensusOutput::ProposalValidated { sender: 9, .. }));
    assert_eq!(c.proposal_at(1).map(|p| p.leaf_commit), Some(101));
}

#[test]
fn a_share_for_another_payload_does_not_pair() {
    let (mut c, m, mut out) = node();
    c.apply(ConsensusInput::VidShare(share(1, 12)), &m, &mut out);
    c.apply(ConsensusInput::Proposal(9, signed(proposal(1, 1, 11, qc(0, 100, 0), 101))), &m, &mut out);
    assert!(out.is_empty());
    assert!(c.proposal_at(1).is_none());
}

#[test]
fn the_first_vote_waits_for_its_action_and_proposal_to_be_stored() {
    let (mut c, m, mut out) = node();
    c.apply(ConsensusInput::Proposal(9, signed(proposal(1, 1, 11, qc(0, 100, 0), 101))), &m, &mut out);
    c.apply(ConsensusInput::VidShare(share(1, 11)), &m, &mut out);
    drain(&mut out);

    c.apply(ConsensusInput::StateValidated(StateResponse { view: 1, commitment: 101 }), &m, &mut out);
    let o = drain(&mut out);
    assert_eq!(o.len(), 1);
    assert!(matches!(o[0], ConsensusOutput::RecordAction(1, Some(1), ActionKind::Vote)));

    c.apply(ConsensusInput::Stored(StorageOutput::Action(1, ActionKind::Vote)), &m, &mut out);
    assert!(out.is_empty());

    c.apply(ConsensusInput::Stored(StorageOutput::Proposal(1, 101)), &m, &mut out);
    let o = drain(&mut out);
    assert_eq!(o.len(), 2);
    assert!(matches!(o[0], ConsensusOutput::SendVote1(v) if v.view == 1 && v.leaf_commit == 101 && v.epoch == Some(1) && !v.with_state_vote));
    assert!(matches!(o[1], ConsensusOutput::BroadcastVidShare(s) if s.view == 1));

    // The same confirmation again sends nothing more.
    c.apply(ConsensusInput::Stored(StorageOutput::Proposal(1, 101)), &m, &mut out);
    assert!(out.is_empty());
}

#[test]
fn a_state_that_does_not_match_gets_no_vote() {
    let (mut c, m, mut out) = node();
    c.apply(ConsensusInput::Proposal(9, signed(proposal(1, 1, 11, qc(0, 100, 0), 101))), &m, &mut out);
    c.apply(ConsensusInput::VidShare(share(1, 11)), &m, &mut out);
    drain(&mut out);
    c.apply(ConsensusInput::StateValidated(StateResponse { view: 1, commitment: 999 }), &m, &mut out);
    assert!(out.is_empty());
}

#[test]
fn an_unstaked_node_does_not_vote() {
    let mut c = Consensus::new(ME, Leaf { proposal: genesis(), payload: None }, HEIGHT);
    let m = Membership::new();
    let mut out = Outbox::new();
    c.apply(ConsensusInput::Proposal(9, signed(proposal(1, 1, 11, qc(0, 100, 0), 101))), &m, &mut out);
    c.apply(ConsensusInput::VidShare(share(1, 11)), &m, &mut out);
    drain(&mut out);
    c.apply(ConsensusInput::StateValidated(StateResponse { view: 1, commitment: 101 }), &m, &mut out);
    assert!(out.is_empty());
}

#[test]
fn lock_second_vote_and_decision() {
    let (mut c, m, mut out) = voted_in_view_1();
    let cert1 = qc(1, 101, 1);
    c.apply(ConsensusInput::Certificate1(cert1, 1), &m, &mut out);
    assert!(out.is_empty(), "the block is not reconstructed yet");

    c.apply(ConsensusInput::BlockReconstructed(1, 11), &m, &mut out);
    let o = drain(&mut out);
    assert_eq!(o.len(), 3);
    assert!(matches!(o[0], ConsensusOutput::ViewChanged(2, 1)));
    assert!(matches!(o[1], ConsensusOutput::SendCertificate1(q) if q.view == 1));
    assert!(matches!(o[2], ConsensusOutput::PersistHighQc(q) if q.view == 1));
    assert_eq!(c.locked_view(), Some(1));
    assert_eq!(c.current_view(), 2);

    // The second vote waits for the share and the lock to be persisted.
    c.apply(ConsensusInput::Stored(StorageOutput::Vid(1)), &m, &mut out);
    assert!(out.is_empty());
    c.apply(ConsensusInput::Stored(StorageOutput::HighQc(1)), &m, &mut out);
    let o = drain(&mut out);
    assert_eq!(o.len(), 1);
    assert!(matches!(o[0], ConsensusOutput::SendVote2(v) if v.view == 1 && v.leaf_commit == 101 && v.epoch == 1));

    let cert2 = Certificate2 { view: 1, epoch: 1, leaf_commit: 101, block_number: 1 };
    c.apply(ConsensusInput::Certificate2(cert2, 1), &m, &mut out);
    let o = drain(&mut out);
    assert_eq!(o.len(), 2);
    assert!(matches!(o[0], ConsensusOutput::SendCertificate2(q) if q.view == 1));
    match &o[1] {
        ConsensusOutput::LeafDecided { leaves, cert1, cert2, vid_shares } => {
            assert_eq!(leaves.len(), 1);
            assert_eq!(leaves[0].proposal.view, 1);
            assert_eq!(cert1.view, 1);
            assert_eq!(cert2.map(|c| c.leaf_commit), Some(101));
            assert_eq!(vid_shares.len(), 1);
        },
        _ => panic!("expected a decision"),
    }
    assert_eq!(c.last_decided_view(), 1);

    // A second certificate for a decided view is neither relayed nor decided again.
    c.apply(ConsensusInput::Certificate2(cert2, 1), &m, &mut out);
    assert!(out.is_empty());
}

#[test]
fn a_timeout_bars_the_first_vote() {
    let (mut c, m, mut out) = node();
    c.apply(ConsensusInput::Proposal(9, signed(proposal(1, 1, 11, qc(0, 100, 0), 101))), &m, &mut out);
    c.apply(ConsensusInput::VidShare(share(1, 11)), &m, &mut out);
    drain(&mut out);

    c.apply(ConsensusInput::Timeout(1, 1), &m, &mut out);
    let o = drain(&mut out);
    assert_eq!(o.len(), 1);
    assert!(matches!(o[0], ConsensusOutput::SendTimeoutVote(v, None) if v.view == 1 && v.epoch == Some(1)));

    c.apply(ConsensusInput::StateValidated(StateResponse { view: 1, commitment: 101 }), &m, &mut out);
    assert!(out.is_empty(), "no vote for a view that timed out");
}

#[test]
fn a_stale_timeout_is_ignored() {
    let (mut c, m, mut out) = voted_in_view_1();
    c.apply(ConsensusInput::Certificate1(qc(1, 101, 1), 1), &m, &mut out);
    c.apply(ConsensusInput::BlockReconstructed(1, 11), &m, &mut out);
    drain(&mut out);
    assert_eq!(c.current_view(), 2);
    c.apply(ConsensusInput::Timeout(1, 1), &m, &mut out);
    assert!(out.is_empty());
    c.apply(ConsensusInput::TimeoutOneHonest(2, 1), &m, &mut out);
    let o = drain(&mut out);
    assert_eq!(o.len(), 1);
    assert!(matches!(o[0], ConsensusOutput::SendTimeoutVote(v, Some(CatchupEvidence::Qc(q))) if v.view == 2 && q.view == 1));
}

#[test]
fn a_timeout_certificate_moves_the_view_and_is_relayed_once() {
    let (mut c, mut m, mut out) = node();
    m.set_leader(4, 1, 77);
    let tc = TimeoutCertificate { view: 3, epoch: Some(1) };
    c.apply(ConsensusInput::TimeoutCertificate(tc, 1), &m, &mut out);
    let o = drain(&mut out);
    assert_eq!(o.len(), 3);
    assert!(matches!(o[0], ConsensusOutput::ViewChanged(4, 1)));
    assert!(matches!(o[1], ConsensusOutput::ViewTimedOut(3)));
    assert!(matches!(o[2], ConsensusOutput::SendTimeoutCertificate(t, 4, 1) if t.view == 3));
    assert_eq!(c.current_view(), 4);
    assert_eq!(c.current_epoch(), Some(1));
    assert!(c.timeout_cert_at(4).is_some());

    c.apply(ConsensusInput::TimeoutCertificate(tc, 1), &m, &mut out);
    assert!(out.is_empty());

    c.apply(ConsensusInput::Timeout(4, 1), &m, &mut out);
    let o = drain(&mut out);
    assert!(matches!(o[0], ConsensusOutput::SendTimeoutVote(_, Some(CatchupEvidence::Tc(t))) if t.view == 3));
}

#[test]
fn an_epoch_change_moves_into_the_next_epoch() {
    let (mut c, mut m, mut out) = node();
    m.set_leader(11, 2, ME);
    let boundary = proposal(10, 100, 13, qc(9, 109, 99), 110);
    let msg = EpochChangeMessage {
        cert1: Certificate1 { view: 10, epoch: Some(1), leaf_commit: 110, block_number: Some(100) },
        cert2: Certificate2 { view: 10, epoch: 1, leaf_commit: 110, block_number: 100 },
        proposal: boundary,
    };
    c.apply(ConsensusInput::EpochChange(msg), &m, &mut out);
    let o = drain(&mut out);
    assert!(matches!(o[0], ConsensusOutput::ViewChanged(11, 2)));
    assert!(matches!(o[1], ConsensusOutput::RequestBlockAndHeader(r) if r.view == 11 && r.epoch == 2 && r.parent_proposal.view == 10));
    assert_eq!(c.current_view(), 11);
    assert_eq!(c.current_epoch(), Some(2));
    assert!(c.cert2_at(10).is_some());
    assert!(c.proposal_at(10).is_some());

    // One for an epoch already left behind is ignored.
    let old = EpochChangeMessage {
        cert1: Certificate1 { view: 5, epoch: Some(0), leaf_commit: 1, block_number: Some(0) },
        cert2: Certificate2 { view: 5, epoch: 0, leaf_commit: 1, block_number: 0 },
        proposal: proposal(5, 0, 1, qc(4, 1, 0), 1),
    };
    c.apply(ConsensusInput::EpochChange(old), &m, &mut out);
    assert!(out.is_empty());
}

#[test]
fn a_state_validation_failure_drops_the_proposal() {
    let (mut c, m, mut out) = node();
    c.apply(ConsensusInput::Proposal(9, signed(proposal(1, 1, 11, qc(0, 100, 0), 101))), &m, &mut out);
    c.apply(ConsensusInput::VidShare(share(1, 11)), &m, &mut out);
    drain(&mut out);
    c.apply(ConsensusInput::StateValidationFailed(StateResponse { view: 1, commitment: 5 }), &m, &mut out);
    assert!(c.proposal_at(1).is_some(), "a failure for another leaf keeps it");
    c.apply(ConsensusInput::StateValidationFailed(StateResponse { view: 1, commitment: 101 }), &m, &mut out);
    assert!(c.proposal_at(1).is_none());
    assert!(c.vid_share_at(1).is_none());
    assert!(out.is_empty());
}

#[test]
fn a_certificate_without_its_proposal_asks_for_it() {
    let (mut c, m, mut out) = node();
    let cert2 = Certificate2 { view: 3, epoch: 1, leaf_commit: 103, block_number: 3 };
    c.apply(ConsensusInput::Certificate2(cert2, 1), &m, &mut out);
    let o = drain(&mut out);
    assert!(matches!(o[0], ConsensusOutput::SendCertificate2(_)));
    assert!(matches!(o[1], ConsensusOutput::RequestMissingProposal { view: 3, leaf_commit: 103 }));
}

#[test]
fn the_safety_rule() {
    let (mut c, m, mut out) = voted_in_view_1();
    c.apply(ConsensusInput::Certificate1(qc(1, 101, 1), 1), &m, &mut out);
    c.apply(ConsensusInput::BlockReconstructed(1, 11), &m, &mut out);
    drain(&mut out);
    // Extends the lock.
    assert!(c.is_safe(&proposal(2, 2, 12, qc(1, 101, 1), 102)).is_ok());
    // Neither extends it nor is newer.
    assert!(c.is_safe(&proposal(2, 2, 12, qc(0, 100, 0), 102)).is_err());
    // A conflicting leaf at the locked view.
    assert!(c.is_safe(&proposal(1, 1, 11, qc(0, 100, 0), 555)).is_err());
    // A newer justify QC.
    assert!(c.is_safe(&proposal(3, 3, 12, qc(2, 7, 2), 103)).is_ok());
    assert!(!c.wants_proposal_for_view(0));
    assert!(!c.wants_proposal_for_view(1), "its proposal and share are both held");
    assert!(c.wants_proposal_for_view(2));
}

#[test]
fn a_restart_never_moves_views_back() {
    let (mut c, _m, _out) = node();
    c.resume_from_restart(10, 12, 11);
    assert_eq!(c.current_view(), 11);
    assert_eq!(c.decide_floor(), 10);
    c.resume_from_restart(3, 4, 2);
    assert_eq!(c.current_view(), 11);
    assert_eq!(c.decide_floor(), 10);
}

#[test]
fn a_built_block_is_sent_for_dispersal() {
    let (mut c, m, mut out) = node();
    let payload = hotshot_new_protocol::data::Payload { bytes: vec![1, 2, 3] };
    c.apply(
        ConsensusInput::BlockBuilt { view: 1, epoch: 1, payload, metadata: vec![7], payload_commitment: VidCommitment::V2(11) },
        &m,
        &mut out,
    );
    let o = drain(&mut out);
    assert!(matches!(&o[0], ConsensusOutput::RequestVidDisperse { view: 1, epoch: 1, payload, metadata, payload_commitment: 11 }
        if payload.bytes == vec![1, 2, 3] && *metadata == vec![7]));
}

#[test]
fn a_block_in_the_older_dispersal_scheme_is_not_dispersed() {
    let (mut c, m, mut out) = node();
    let payload = hotshot_new_protocol::data::Payload { bytes: vec![1] };
    c.apply(
        ConsensusInput::BlockBuilt { view: 1, epoch: 1, payload, metadata: vec![], payload_commitment: VidCommitment::V1(11) },
        &m,
        &mut out,
    );
    assert!(!drain(&mut out).iter().any(|o| matches!(o, ConsensusOutput::RequestVidDisperse { .. })));
}

#[test]
fn a_proposal_in_the_older_dispersal_scheme_is_dropped() {
    let (mut c, m, mut out) = node();
    let mut p1 = proposal(1, 1, 11, qc(0, 100, 0), 101);
    p1.block_header.payload_commitment = VidCommitment::V1(11);
    c.apply(ConsensusInput::Proposal(9, signed(p1)), &m, &mut out);
    c.apply(ConsensusInput::VidShare(share(1, 11)), &m, &mut out);
    assert!(out.is_empty());
    assert!(c.proposal_at(1).is_none());
}

/// Bring a node that leads view 2 to the point where its proposal for view 2
/// went out to be signed, and return that proposal.
fn proposing_in_view_2() -> (Consensus, Membership, Outbox<ConsensusOutput>, Proposal) {
    let (mut c, mut m, mut out) = node();
    m.set_leader(2, 1, ME);
    let p1 = proposal(1, 1, 11, qc(0, 100, 0), 101);
    c.apply(ConsensusInput::Proposal(9, signed(p1)), &m, &mut out);
    c.apply(ConsensusInput::VidShare(share(1, 11)), &m, &mut out);
    c.apply(ConsensusInput::Certificate1(qc(1, 101, 1), 1), &m, &mut out);
    let header = BlockHeader { block_number: 2, payload_commitment: VidCommitment::V2(22) };
    c.apply(ConsensusInput::HeaderCreated(2, 101, header), &m, &mut out);
    let payload = hotshot_new_protocol::data::Payload { bytes: vec![5] };
    c.apply(
        ConsensusInput::BlockBuilt { view: 2, epoch: 1, payload, metadata: vec![], payload_commitment: VidCommitment::V2(22) },
        &m,
        &mut out,
    );
    let o = drain(&mut out);
    let p2 = o
        .iter()
        .find_map(|x| match x {
            ConsensusOutput::SignProposal(p) if p.view == 2 => Some(*p),
            _ => None,
        })
        .expect("the leader builds its proposal");
    (c, m, out, p2)
}

#[test]
fn a_signed_proposal_is_persisted() {
    let (mut c, m, mut out, p2) = proposing_in_view_2();
    c.apply(ConsensusInput::ProposalSigned(signed(p2)), &m, &mut out);
    assert!(drain(&mut out).iter().any(|o| matches!(o, ConsensusOutput::PersistProposal(sp) if sp.data.view == 2)));
}

#[test]
fn a_proposal_signed_after_its_view_timed_out_is_dropped() {
    let (mut c, m, mut out, p2) = proposing_in_view_2();
    c.apply(ConsensusInput::Timeout(2, 1), &m, &mut out);
    drain(&mut out);
    c.apply(ConsensusInput::ProposalSigned(signed(p2)), &m, &mut out);
    assert!(!drain(&mut out).iter().any(|o| matches!(o, ConsensusOutput::PersistProposal(_) | ConsensusOutput::SendProposal(_))));
}

#[test]
fn a_second_certificate_is_relayed_with_a_request_for_its_missing_proposal() {
    let (mut c, m, mut out) = node();
    let cert2 = Certificate2 { view: 3, epoch: 1, leaf_commit: 103, block_number: 3 };
    c.apply(ConsensusInput::Certificate2(cert2, 1), &m, &mut out);
    let o = drain(&mut out);
    assert!(matches!(o[0], ConsensusOutput::SendCertificate2(c2) if c2.view == 3));
    assert!(matches!(o[1], ConsensusOutput::RequestMissingProposal { view: 3, leaf_commit: 103 }));
    c.apply(ConsensusInput::Certificate2(cert2, 1), &m, &mut out);
    assert!(!drain(&mut out).iter().any(|o| matches!(o, ConsensusOutput::SendCertificate2(_))), "relayed once");
}

fn seed() -> PreCutoverSeed {
    let p3 = proposal(3, 3, 33, qc(2, 102, 2), 103);
    let p4 = proposal(4, 4, 44, qc(3, 103, 3), 104);
    PreCutoverSeed {
        decided_anchor: Leaf { proposal: proposal(2, 2, 22, qc(1, 101, 1), 102), payload: None },
        undecided: vec![Leaf { proposal: p3, payload: None }, Leaf { proposal: p4, payload: None }],
        high_qc: Some(qc(4, 104, 4)),
        cutover_view: 6,
    }
}

#[test]
fn a_seed_applied_twice_changes_nothing_the_second_time() {
    let (mut c, _, _) = node();
    c.apply_pre_cutover_seed(seed());
    assert_eq!(c.locked_view(), Some(4));
    assert_eq!(c.current_view(), 5);
    assert_eq!(c.last_decided_view(), 2);
    let epoch = c.current_epoch();
    let certs: Vec<Option<u64>> = (0..6).map(|v| c.cert1_at(v).map(|q| q.leaf_commit)).collect();
    c.apply_pre_cutover_seed(seed());
    assert_eq!(c.locked_view(), Some(4));
    assert_eq!(c.current_view(), 5);
    assert_eq!(c.current_epoch(), epoch);
    assert_eq!((0..6).map(|v| c.cert1_at(v).map(|q| q.leaf_commit)).collect::<Vec<_>>(), certs);
}
