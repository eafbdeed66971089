use hotshot_new_protocol::consensus::{Consensus, ConsensusInput, ConsensusOutput};
use hotshot_new_protocol::data::{BlockHeader, Certificate1, Leaf, Proposal, SignedProposal, VidCommitment, VidShare};
use hotshot_new_protocol::fetch::{Fetcher, PayloadResponseBody, ResponseOutcome, Retry};
use hotshot_new_protocol::membership::Membership;
use hotshot_new_protocol::outbox::Outbox;
use std::collections::HashSet;

const VIEW: u64 = 1;
const COMMITMENT: u64 = 11;

fn proposal(view: u64, block: u64, payload: u64, leaf_commit: u64) -> Proposal {
    Proposal {
        block_header: BlockHeader { block_number: block, payload_commitment: VidCommitment::V2(payload) },
        view,
        epoch: 1,
        justify_qc: Certificate1 { view: 0, epoch: Some(1), leaf_commit: 100, block_number: Some(0) },
        next_epoch_justify_qc: None,
        view_change_evidence: None,
        next_drb_result: None,
        state_cert: None,
        leaf_commit,
    }
}

/// A node holding view 1's proposal, which names payload 11, and a committee
/// of ten, this node (key 0) among them.
fn setup() -> (Consensus, Membership) {
    let mut c = Consensus::new(0, Leaf { proposal: proposal(0, 0, 0, 100), payload: None }, 100);
    let mut m = Membership::new();
    for k in 0..10u64 {
        m.add_stake(1, k);
    }
    let mut out: Outbox<ConsensusOutput> = Outbox::new();
    c.apply(ConsensusInput::Proposal(9, SignedProposal { data: proposal(VIEW, 1, COMMITMENT, 101), signature: vec![] }), &m, &mut out);
    c.apply(
        ConsensusInput::VidShare(VidShare { view: VIEW, epoch: Some(1), payload_commitment: COMMITMENT, payload_byte_len: 3 }),
        &m,
        &mut out,
    );
    assert!(c.proposal_at(VIEW).is_some());
    (c, m)
}

fn expecting(peer: u64) -> Fetcher {
    let mut f = Fetcher::new(0);
    f.mark_asked(VIEW, COMMITMENT, peer);
    f
}

fn payload(commitment: u64) -> PayloadResponseBody {
    PayloadResponseBody::Payload { commitment, data: vec![1, 2, 3] }
}

#[test]
fn a_payload_that_recommits_is_yielded() {
    let (c, _) = setup();
    let mut f = expecting(1);
    match f.response(VIEW, payload(COMMITMENT), 1, &c) {
        ResponseOutcome::Verify { view, epoch, payload_commitment, data } => {
            assert_eq!(view, VIEW);
            assert_eq!(epoch, 1);
            assert_eq!(payload_commitment, COMMITMENT);
            assert_eq!(data, vec![1, 2, 3]);
        },
        _ => panic!("payload is to be verified"),
    }
}

#[test]
fn an_unsolicited_payload_is_not_verified() {
    let (c, _) = setup();
    let mut f = expecting(1);
    assert!(matches!(f.response(VIEW, payload(COMMITMENT), 2, &c), ResponseOutcome::Dropped));
    assert!(f.is_pending(VIEW, COMMITMENT, 1), "the peer we asked still owes us an answer");
}

#[test]
fn a_response_for_another_commitment_is_dropped() {
    let (c, _) = setup();
    let mut f = expecting(1);
    assert!(matches!(f.response(VIEW, payload(0), 1, &c), ResponseOutcome::Dropped));
    assert!(f.is_pending(VIEW, COMMITMENT, 1));
}

#[test]
fn answering_consumes_the_peers_slot() {
    let (c, _) = setup();
    let mut f = expecting(1);
    assert!(matches!(f.response(VIEW, payload(COMMITMENT), 1, &c), ResponseOutcome::Verify { .. }));
    assert!(
        matches!(f.response(VIEW, payload(COMMITMENT), 1, &c), ResponseOutcome::Dropped),
        "the second response was not verified"
    );
}

#[test]
fn a_payload_for_a_reconstructed_block_is_dropped() {
    let (mut c, m) = setup();
    let mut out: Outbox<ConsensusOutput> = Outbox::new();
    c.apply(ConsensusInput::BlockReconstructed(VIEW, COMMITMENT), &m, &mut out);
    let mut f = expecting(1);
    assert!(matches!(f.response(VIEW, payload(COMMITMENT), 1, &c), ResponseOutcome::Dropped));
    assert!(!f.is_pending(VIEW, COMMITMENT, 1), "the slot is spent all the same");
}

#[test]
fn the_draw_excludes_this_node_and_the_peers_already_asked() {
    let (c, m) = setup();
    let mut f = Fetcher::new(0);
    let mut drawn = HashSet::new();
    for _ in 0..9 {
        let peer = f.request(VIEW, COMMITMENT, Retry::SameRound, &c, &m).expect("a peer this round has not asked");
        assert!(peer != 0, "never ourselves");
        assert!(drawn.insert(peer), "never the same peer twice");
    }
    assert_eq!(drawn.len(), 9);
    assert!(f.select_peer(VIEW, COMMITMENT, Retry::SameRound, &c, &m).is_none());
}

#[test]
fn only_a_new_round_starts_the_draw_over() {
    let (c, m) = setup();
    let mut f = Fetcher::new(0);
    for k in 1..10u64 {
        f.mark_asked(VIEW, COMMITMENT, k);
    }
    assert!(f.select_peer(VIEW, COMMITMENT, Retry::SameRound, &c, &m).is_none(), "the round is exhausted");
    let peer = f.select_peer(VIEW, COMMITMENT, Retry::NewRound, &c, &m).expect("a new round draws again");
    assert!((1..10).contains(&peer));
    for k in 1..10u64 {
        assert!(!f.was_asked(VIEW, COMMITMENT, k), "the new round forgot who was asked");
        assert!(f.is_pending(VIEW, COMMITMENT, k), "who owes an answer outlives the round");
    }
}

#[test]
fn only_a_peer_we_asked_redraws_and_only_once() {
    let (c, _) = setup();
    let mut f = expecting(1);
    assert!(matches!(f.response(VIEW, PayloadResponseBody::NotAvailable, 2, &c), ResponseOutcome::Dropped));
    assert!(matches!(f.response(VIEW, PayloadResponseBody::NotAvailable, 1, &c), ResponseOutcome::Redraw));
    assert!(
        matches!(f.response(VIEW, PayloadResponseBody::TooLarge, 1, &c), ResponseOutcome::Dropped),
        "the slot was spent by the first refusal"
    );
    assert!(f.was_asked(VIEW, COMMITMENT, 1), "a spent peer is still not drawn again");
}

#[test]
fn no_proposal_no_draw() {
    let (c, m) = setup();
    let mut f = Fetcher::new(0);
    assert!(f.request(7, COMMITMENT, Retry::NewRound, &c, &m).is_none());
}

#[test]
fn gc_forgets_fetches_up_to_the_view() {
    let mut f = Fetcher::new(0);
    f.mark_asked(1, 11, 3);
    f.mark_asked(2, 12, 3);
    f.gc(1);
    assert!(!f.is_pending(1, 11, 3));
    assert!(f.is_pending(2, 12, 3));
}

#[test]
fn a_new_fetch_has_asked_no_one() {
    let f = hotshot_new_protocol::fetch::Fetch::default();
    assert!(f.asked.is_empty());
    assert!(f.pending.is_empty());
}
