use hotshot_new_protocol::data::{BlockHeader, Certificate1, Certificate2, Leaf, Payload, Proposal, VidCommitment};
use hotshot_new_protocol::leaf_store::EpochLeafStore;

fn leaf(block: u64) -> Leaf {
    Leaf {
        proposal: Proposal {
            block_header: BlockHeader { block_number: block, payload_commitment: VidCommitment::V2(7) },
            view: block + 100,
            epoch: 1,
            justify_qc: Certificate1 { view: 0, epoch: Some(1), leaf_commit: 0, block_number: Some(0) },
            next_epoch_justify_qc: None,
            view_change_evidence: None,
            next_drb_result: None,
            state_cert: None,
            leaf_commit: block,
        },
        payload: Some(Payload { bytes: vec![block as u8] }),
    }
}

fn cert(block: u64) -> Certificate2 {
    Certificate2 { view: block + 100, epoch: 1, leaf_commit: block, block_number: block }
}

#[test]
fn entries_are_kept_by_height_and_pruned_below_a_bound() {
    let mut s = EpochLeafStore::new();
    s.insert(leaf(5), cert(5));
    s.insert(leaf(10), cert(10));
    let e = s.get(5).expect("stored");
    assert_eq!(e.leaf.proposal.view, 105);
    assert_eq!(e.cert2.block_number, 5);
    assert_eq!(e.leaf.payload.expect("payload kept").bytes, vec![5]);
    assert!(s.get(6).is_none());
    s.gc(10);
    assert!(s.get(5).is_none());
    assert!(s.get(10).is_some());
}

#[test]
fn a_later_insert_at_the_same_height_replaces() {
    let mut s = EpochLeafStore::new();
    s.insert(leaf(5), cert(5));
    let mut other = leaf(5);
    other.proposal.view = 200;
    s.insert(other, cert(5));
    assert_eq!(s.get(5).unwrap().leaf.proposal.view, 200);
}
