use hotshot_new_protocol::data::{BlockHeader, Certificate1, Leaf, Proposal, VidCommitment};
use hotshot_new_protocol::drb::DrbRequester;
use hotshot_new_protocol::epoch::EpochManager;

fn leaf(block: u64) -> Leaf {
    Leaf {
        proposal: Proposal {
            block_header: BlockHeader { block_number: block, payload_commitment: VidCommitment::V2(0) },
            view: block,
            epoch: 1,
            justify_qc: Certificate1 { view: 0, epoch: Some(1), leaf_commit: 0, block_number: Some(0) },
            next_epoch_justify_qc: None,
            view_change_evidence: None,
            next_drb_result: None,
            state_cert: None,
            leaf_commit: block,
        },
        payload: None,
    }
}

#[test]
fn an_epoch_root_asks_for_the_drb_two_epochs_ahead_once() {
    let mut m = EpochManager::new(10);
    // Block 5 is the root of epoch 1: five blocks before its end.
    assert_eq!(m.handle_leaf_decided(&leaf(5)), Some(3));
    assert_eq!(m.handle_leaf_decided(&leaf(5)), None, "in flight");
    assert_eq!(m.handle_leaf_decided(&leaf(7)), None, "not a root");
    m.drb_request_finished(3, false);
    assert!(m.request_drb_result(3), "a failed request may be made again");
    m.drb_request_finished(3, true);
    assert!(!m.request_drb_result(3), "an answered one is not");
    m.gc(4);
    assert!(m.request_drb_result(3), "forgotten below the bound");
}

#[test]
fn drb_requests_run_until_done_or_cancelled() {
    let mut r = DrbRequester::new();
    r.request_drb(2);
    r.request_drb(5);
    r.task_finished(2);
    r.request_drb(3);
    let cancelled = r.gc(4);
    assert_eq!(cancelled, vec![3]);
    assert_eq!(r.gc(6), vec![5]);
}
