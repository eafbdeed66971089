use hotshot_new_protocol::data::{
    BlockHeader, Certificate1, Certificate2, EpochChangeMessage, Proposal, StateCertificate, TimeoutCertificate,
    VidCommitment,
};
use hotshot_new_protocol::schedule::{epoch_from_block_number, is_epoch_root, is_epoch_transition, is_last_block};
use hotshot_new_protocol::validation::{validated_state_cert, well_formed, EpochChangeError, MalformedProposal};

const H: u64 = 10;

fn qc(view: u64, epoch: Option<u64>, block: Option<u64>) -> Certificate1 {
    Certificate1 { view, epoch, leaf_commit: 500 + view, block_number: block }
}

fn proposal(view: u64, block: u64, epoch: u64, justify_qc: Certificate1) -> Proposal {
    Proposal {
        block_header: BlockHeader { block_number: block, payload_commitment: VidCommitment::V2(1) },
        view,
        epoch,
        justify_qc,
        next_epoch_justify_qc: None,
        view_change_evidence: None,
        next_drb_result: None,
        state_cert: None,
        leaf_commit: 900 + view,
    }
}

fn good() -> Proposal {
    proposal(3, 3, 1, qc(2, Some(1), Some(2)))
}

#[test]
fn the_schedule_of_epochs() {
    assert_eq!(epoch_from_block_number(0, H), 0);
    assert_eq!(epoch_from_block_number(1, H), 1);
    assert_eq!(epoch_from_block_number(10, H), 1);
    assert_eq!(epoch_from_block_number(11, H), 2);
    assert_eq!(epoch_from_block_number(11, 0), 0);
    assert!(is_last_block(20, H) && !is_last_block(0, H) && !is_last_block(19, H));
    assert!(is_epoch_root(5, H) && is_epoch_root(15, H) && !is_epoch_root(10, H));
    assert!(is_epoch_transition(10, H));
}

#[test]
fn a_well_formed_proposal_yields_its_parts() {
    let parts = well_formed(&good(), H).expect("well formed");
    assert_eq!(parts.justify_qc_epoch, 1);
    assert!(parts.next_epoch_justify_qc.is_none());
    assert!(parts.view_change_evidence.is_none());
}

#[test]
fn each_claim_is_checked_in_turn() {
    let mut p = good();
    p.epoch = 2;
    assert!(matches!(
        well_formed(&p, H),
        Err(MalformedProposal::Epoch { view: 3, block_number: 3, expected: 1, claimed: 2 })
    ));

    let p = proposal(3, 3, 1, qc(2, None, Some(2)));
    assert!(matches!(well_formed(&p, H), Err(MalformedProposal::JustifyQcWithoutEpoch(3))));

    let p = proposal(3, 3, 1, qc(2, Some(2), Some(2)));
    assert!(matches!(well_formed(&p, H), Err(MalformedProposal::JustifyQcEpoch { expected: 1, claimed: 2, .. })));

    let p = proposal(3, 3, 1, qc(2, Some(1), None));
    assert!(matches!(well_formed(&p, H), Err(MalformedProposal::JustifyQcWithoutBlockNumber(3))));

    let p = proposal(3, 3, 1, qc(2, Some(1), Some(1)));
    assert!(matches!(well_formed(&p, H), Err(MalformedProposal::JustifyQcBlockNumber { expected: 2, claimed: 1, .. })));

    let p = proposal(3, 3, 1, qc(3, Some(1), Some(2)));
    assert!(matches!(well_formed(&p, H), Err(MalformedProposal::ParentNotEarlier { view: 3, parent_view: 3 })));
}

#[test]
fn a_gap_needs_a_timeout_certificate_for_the_view_before() {
    let mut p = proposal(3, 3, 1, qc(1, Some(1), Some(2)));
    assert!(matches!(well_formed(&p, H), Err(MalformedProposal::ViewChangeEvidenceMissing(3))));
    p.view_change_evidence = Some(TimeoutCertificate { view: 1, epoch: Some(1) });
    assert!(matches!(well_formed(&p, H), Err(MalformedProposal::ViewChangeEvidenceView { view: 3, evidence_view: 1 })));
    p.view_change_evidence = Some(TimeoutCertificate { view: 2, epoch: Some(1) });
    let parts = well_formed(&p, H).expect("evidence for view 2");
    assert_eq!(parts.view_change_evidence.map(|tc| tc.view), Some(2));
}

#[test]
fn the_first_block_of_an_epoch_carries_the_deciding_certificate() {
    let mut p = proposal(11, 11, 2, qc(10, Some(1), Some(10)));
    assert!(matches!(well_formed(&p, H), Err(MalformedProposal::NextEpochJustifyQcMissing(11))));
    let c2 = Certificate2 { view: 10, epoch: 1, leaf_commit: 510, block_number: 10 };
    p.next_epoch_justify_qc = Some(Certificate2 { leaf_commit: 1, ..c2 });
    assert!(matches!(well_formed(&p, H), Err(MalformedProposal::NextEpochJustifyQcLeafCommit(11))));
    p.next_epoch_justify_qc = Some(Certificate2 { view: 9, ..c2 });
    assert!(matches!(well_formed(&p, H), Err(MalformedProposal::NextEpochJustifyQcParent { claimed_view: 9, parent_view: 10, .. })));
    p.next_epoch_justify_qc = Some(c2);
    assert_eq!(well_formed(&p, H).expect("well formed").next_epoch_justify_qc.map(|c| c.view), Some(10));
}

#[test]
fn an_epoch_change_message_is_checked_structurally() {
    let c1 = qc(20, Some(2), Some(20));
    let c2 = Certificate2 { view: 20, epoch: 2, leaf_commit: 520, block_number: 20 };
    let mut p = proposal(20, 20, 2, qc(19, Some(2), Some(19)));
    p.leaf_commit = 520;
    let m = EpochChangeMessage { cert1: c1, cert2: c2, proposal: p };
    assert!(m.well_formed(H).is_ok());
    assert_eq!(m.view_number(), 20);
    assert_eq!(m.epoch(), Some(2));
    let bad = EpochChangeMessage { cert2: Certificate2 { view: 21, ..c2 }, ..m };
    assert!(matches!(bad.well_formed(H), Err(EpochChangeError::CertificateMismatch)));
    let bad = EpochChangeMessage { cert1: qc(19, Some(2), Some(19)), cert2: Certificate2 { view: 19, leaf_commit: 519, block_number: 19, ..c2 }, ..m };
    assert!(matches!(bad.well_formed(H), Err(EpochChangeError::NotLastBlock)));
    let bad = EpochChangeMessage { cert1: qc(20, Some(3), Some(20)), cert2: Certificate2 { epoch: 3, ..c2 }, ..m };
    assert!(matches!(bad.well_formed(H), Err(EpochChangeError::WrongEpoch)));
    let mut other = p;
    other.leaf_commit = 1;
    let bad = EpochChangeMessage { proposal: other, ..m };
    assert!(matches!(bad.well_formed(H), Err(EpochChangeError::ProposalMismatch)));
}

#[test]
fn only_the_matching_state_certificate_is_kept() {
    let mut p = proposal(6, 6, 1, qc(5, Some(1), Some(5)));
    p.state_cert = Some(StateCertificate { epoch: 1, view: 5, block_height: 5 });
    assert!(validated_state_cert(&p, H).is_some());
    p.state_cert = Some(StateCertificate { epoch: 1, view: 4, block_height: 5 });
    assert!(validated_state_cert(&p, H).is_none());
    p.state_cert = None;
    assert!(validated_state_cert(&p, H).is_none());
}
