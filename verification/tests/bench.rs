use hotshot_new_protocol::bench::{MetricsCollector, NodeConfig, OutputRoute};
use hotshot_new_protocol::consensus::{ConsensusInput, ConsensusOutput};
use hotshot_new_protocol::data::{StateResponse, Vote1};
use std::time::Duration;

#[test]
fn the_timeout_is_in_milliseconds() {
    let cfg = NodeConfig {
        node_id: 0,
        total_nodes: 4,
        timeout_ms: 5000,
        target_views: 100,
        bind_addr: "127.0.0.1:0".to_string(),
        peers: vec![],
        output_file: "results.csv".to_string(),
        block_size: 0,
        namespaces: 1,
        sampler_tick_ms: 50,
    };
    assert_eq!(cfg.timeout_duration(), Duration::from_millis(5000));
}

#[test]
fn views_are_timed_and_the_highest_decided_one_found() {
    let mut m = MetricsCollector::new(3);
    assert_eq!(m.max_decided_view(), 0);
    m.record_input(&ConsensusInput::StateValidated(StateResponse { view: 4, commitment: 1 }), 10);
    assert_eq!(m.view_metrics(4).and_then(|v| v.state_validated_ns), Some(10));
    m.record_output(&ConsensusOutput::ViewChanged(6, 1), 11);
    m.record_output(
        &ConsensusOutput::SendVote1(Vote1 { view: 6, leaf_commit: 1, epoch: None, block_number: None, with_state_vote: false }),
        12,
    );
    assert_eq!(m.view_metrics(6).and_then(|v| v.vote1_sent_ns), Some(12));
    m.record_output(&ConsensusOutput::ViewChanged(9, 1), 13);
    m.record_output(
        &ConsensusOutput::LeafDecided { leaves: vec![], cert1: hotshot_new_protocol::data::Certificate1 { view: 9, epoch: None, leaf_commit: 0, block_number: None }, cert2: None, vid_shares: vec![] },
        14,
    );
    assert_eq!(m.max_decided_view(), 9);
    assert_eq!(m.rows().len(), 3);
    m.on_input(&ConsensusInput::StateValidated(StateResponse { view: 2, commitment: 1 }));
    assert!(m.view_metrics(2).and_then(|v| v.state_validated_ns).is_some());
}

#[test]
fn test_blocks_take_over_block_requests_and_dispersal() {
    let mut cfg = NodeConfig {
        node_id: 0,
        total_nodes: 4,
        timeout_ms: 5000,
        target_views: 3,
        bind_addr: "127.0.0.1:0".to_string(),
        peers: vec![],
        output_file: "results.csv".to_string(),
        block_size: 10,
        namespaces: 1,
        sampler_tick_ms: 50,
    };
    let disperse = ConsensusOutput::RequestVidDisperse {
        view: 1,
        epoch: 1,
        payload: hotshot_new_protocol::data::Payload { bytes: vec![] },
        metadata: vec![],
        payload_commitment: 0,
    };
    assert_eq!(cfg.route_output(&disperse), OutputRoute::Skip);
    assert_eq!(cfg.route_output(&ConsensusOutput::ViewTimedOut(1)), OutputRoute::Process);
    cfg.block_size = 0;
    assert_eq!(cfg.route_output(&disperse), OutputRoute::Process);
}

#[test]
fn the_target_is_reached_once_a_view_that_far_is_decided() {
    let mut m = MetricsCollector::new(0);
    assert!(!m.target_reached(1));
    assert!(m.target_reached(0));
    m.record_output(&ConsensusOutput::ViewChanged(4, 1), 10);
    m.record_output(
        &ConsensusOutput::LeafDecided { leaves: vec![], cert1: hotshot_new_protocol::data::Certificate1 { view: 4, epoch: Some(1), leaf_commit: 1, block_number: Some(4) }, cert2: None, vid_shares: vec![] },
        20,
    );
    assert!(m.target_reached(4));
    assert!(!m.target_reached(5));
}
