use hotshot_new_protocol::leader_trace::{AsViewU64, LeaderEvent};

#[test]
fn events_have_stable_names() {
    assert_eq!(LeaderEvent::ProposalValidatedVMinus1.name(), "proposal_validated_v_minus_1");
    assert_eq!(LeaderEvent::RecoverVMinus1DecodeEnd.name(), "recover_v_minus_1_decode_end");
    assert_eq!(LeaderEvent::Leaf2CommitComputed.name(), "leaf2_commit_computed");
    assert_eq!(LeaderEvent::Cert1VMinus1BroadcastEnd.name(), "cert1_v_minus_1_broadcast_end");
    assert_eq!(LeaderEvent::LeafDecided.name(), "leaf_decided");
    assert_eq!(7u64.as_view_u64(), 7);
}
