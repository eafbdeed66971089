use hotshot_new_protocol::oracle::{
    bare, block_reconstructed, decide, leaf_id, log_leaf, log_proposal, log_view, propose,
    receive_cert1, receive_cert2, receive_proposal, reject_unsafe_proposal, state_validated,
    stored, stored_high_qc, timeout, timeout_certificate, view, view_block, vote_1,
    vote_2_and_update_lock, LeafIds, OracleAction, COMPONENT, FAST_FINALITY_SCOPE,
};

fn one_arg(a: &OracleAction, action: &str, name: &str, domain: &str, value: u64) {
    assert_eq!(a.scope, COMPONENT);
    assert_eq!(a.action, action);
    assert_eq!(a.args.len(), 1);
    assert_eq!(a.args[0].name, name);
    assert_eq!(a.args[0].domain, domain);
    assert_eq!(a.args[0].value, value);
}

#[test]
fn consensus_events_name_their_action_and_argument() {
    one_arg(&receive_proposal(4, 2), "receive_proposal", "leaf", "LEAVES", 4);
    one_arg(&reject_unsafe_proposal(6, 2), "reject_unsafe_proposal", "leaf", "LEAVES", 6);
    one_arg(&receive_cert1(8), "receive_cert1", "leaf", "LEAVES", 8);
    one_arg(&receive_cert2(8), "receive_cert2", "leaf", "LEAVES", 8);
    one_arg(&state_validated(3), "state_validated", "leaf", "LEAVES", 3);
    one_arg(&block_reconstructed(5), "block_reconstructed", "view", "VIEWS", 5);
    one_arg(&timeout(5), "timeout", "view", "VIEWS", 5);
    one_arg(&timeout_certificate(5), "timeout_certificate", "view", "VIEWS", 5);
    one_arg(&vote_1(5), "vote_1", "view", "VIEWS", 5);
    one_arg(&vote_2_and_update_lock(5), "vote_2_and_update_lock", "view", "VIEWS", 5);
    one_arg(&decide(5), "decide", "view", "VIEWS", 5);
    one_arg(&propose(5), "propose", "view", "VIEWS", 5);
    one_arg(&stored(5), "stored", "view", "VIEWS", 5);
    one_arg(&stored_high_qc(5), "stored_high_qc", "view", "VIEWS", 5);
    one_arg(&log_view("x", 1), "x", "view", "VIEWS", 1);
    one_arg(&log_leaf("y", 2), "y", "leaf", "LEAVES", 2);
    one_arg(&log_proposal("z", 3, 9), "z", "leaf", "LEAVES", 3);
}

#[test]
fn fast_finality_events() {
    let a = view_block("propose", 7);
    assert_eq!(a.scope, FAST_FINALITY_SCOPE);
    assert_eq!(a.args.len(), 2);
    assert_eq!((a.args[0].name, a.args[0].value), ("view", 7));
    assert_eq!((a.args[1].name, a.args[1].domain, a.args[1].value), ("block", "BLOCKS", 1));
    let t = view("form_tc", 3);
    assert_eq!(t.scope, FAST_FINALITY_SCOPE);
    assert_eq!(t.action, "form_tc");
    assert_eq!(t.args.len(), 1);
    assert!(bare("advance_epoch").args.is_empty());
}

#[test]
fn leaf_ids_count_branches_in_first_seen_order() {
    let mut ids = LeafIds::new();
    assert_eq!(leaf_id(&mut ids, 3, 100), 6);
    assert_eq!(leaf_id(&mut ids, 3, 200), 7);
    assert_eq!(leaf_id(&mut ids, 4, 100), 8);
    assert_eq!(leaf_id(&mut ids, 3, 100), 6);
    assert_eq!(leaf_id(&mut ids, 3, 300), 8);
    assert_eq!(leaf_id(&mut ids, u64::MAX, 1), u64::MAX);
}
