use hotshot_new_protocol::cutover::{extract_pre_cutover_seed, undecided_chain};
use hotshot_new_protocol::data::{BlockHeader, Certificate1, Leaf, Proposal, VidCommitment};

fn qc(view: u64) -> Certificate1 {
    Certificate1 { view, epoch: Some(1), leaf_commit: view, block_number: Some(view) }
}

fn leaf(view: u64) -> Leaf {
    Leaf {
        proposal: Proposal {
            block_header: BlockHeader { block_number: view, payload_commitment: VidCommitment::V2(view) },
            view,
            epoch: 1,
            justify_qc: qc(view.saturating_sub(1)),
            next_epoch_justify_qc: None,
            view_change_evidence: None,
            next_drb_result: None,
            state_cert: None,
            leaf_commit: view,
        },
        payload: None,
    }
}

fn views(leaves: &[Leaf]) -> Vec<u64> {
    leaves.iter().map(|l| l.proposal.view).collect()
}

#[test]
fn the_chain_above_the_anchor_comes_oldest_first() {
    let saved = vec![leaf(9), leaf(3), leaf(7), leaf(5), leaf(8)];
    assert_eq!(views(&undecided_chain(saved, 5)), vec![7, 8, 9]);
}

#[test]
fn without_a_decided_upgrade_there_is_no_seed() {
    assert!(extract_pre_cutover_seed(None, leaf(5), vec![leaf(6)], qc(6)).is_none());
}

#[test]
fn a_seed_carries_anchor_chain_qc_and_cutover_view() {
    let seed = extract_pre_cutover_seed(Some(20), leaf(5), vec![leaf(7), leaf(4), leaf(6)], qc(7)).expect("seed");
    assert_eq!(seed.cutover_view, 20);
    assert_eq!(seed.decided_anchor.proposal.view, 5);
    assert_eq!(views(&seed.undecided), vec![6, 7]);
    assert_eq!(seed.high_qc.map(|q| q.view), Some(7));
}
