use hotshot_new_protocol::block::{BlockBuilder, BlockBuilderConfig, Submitted};
use std::collections::BTreeMap;

fn builder(block_size: u64, max_retry_bytes: u64, ttl: u64) -> BlockBuilder<&'static str> {
    let mut block_sizes = BTreeMap::new();
    block_sizes.insert(0, block_size);
    BlockBuilder::new(BlockBuilderConfig { max_retry_bytes, block_sizes, ttl, dedup_window_size: 2 })
}

#[test]
fn submissions_are_checked_against_block_and_buffer() {
    let mut b = builder(100, 150, 5);
    assert!(matches!(b.on_submit_transaction("a", 1, 60, 70), Submitted::Accepted));
    assert!(matches!(b.on_submit_transaction("a", 1, 60, 70), Submitted::Duplicate));
    assert!(matches!(b.on_submit_transaction("big", 2, 101, 10), Submitted::TooLarge));
    assert!(matches!(b.on_submit_transaction("b", 3, 91, 10), Submitted::BufferFull));
    assert!(matches!(b.on_submit_transaction("c", 4, 90, 10), Submitted::Accepted));
    assert_eq!(b.outstanding_transactions(), (2, 150));
    assert_eq!(b.pending_transaction(4), Some(&"c"));
    assert_eq!(b.pending_transaction(3), None);
}

#[test]
fn a_view_change_expires_and_forwards_within_one_block() {
    let mut b = builder(100, 1000, 2);
    b.on_submit_transaction("a", 1, 60, 10);
    b.on_submit_transaction("b", 2, 60, 10);
    b.on_submit_transaction("c", 3, 30, 10);
    // Oldest first, skipping what no longer fits: two of 60 bytes do not fit a block of 100.
    assert_eq!(b.on_view_changed(1), vec![1, 3]);
    // All three were submitted at view 0 with a ttl of 2: still live at view 2, gone at 3.
    assert_eq!(b.outstanding_transactions().0, 3);
    b.on_view_changed(3);
    assert_eq!(b.outstanding_transactions(), (0, 0));
}

#[test]
fn the_leader_buffer_skips_duplicates_included_and_overflow() {
    let mut b = builder(100, 1000, 5);
    b.on_dedup_manifest(0, vec![9]);
    b.on_transactions(1, vec![("a", 1, 50), ("a", 1, 50), ("x", 9, 1), ("b", 2, 60), ("c", 3, 50)]);
    let txs = b.request_block(1, 77).expect("a new build");
    let mut hashes: Vec<u64> = txs.iter().map(|(h, _)| *h).collect();
    hashes.sort();
    assert_eq!(hashes, vec![1, 3]);
    assert!(b.request_block(1, 77).is_none(), "the same build is under way");
    assert!(b.request_block(1, 78).expect("another parent").is_empty());
    b.gc(2);
    assert!(b.request_block(1, 77).is_some(), "forgotten below the bound");
}

#[test]
fn a_reconstructed_block_stops_retries() {
    let mut b = builder(100, 1000, 5);
    b.on_submit_transaction("a", 1, 10, 10);
    b.on_submit_transaction("b", 2, 10, 10);
    b.on_block_reconstructed(0, vec![1]);
    assert_eq!(b.outstanding_transactions(), (1, 10));
    b.on_transactions(0, vec![("a", 1, 10)]);
    assert!(b.request_block(0, 1).unwrap().is_empty(), "an included transaction is not buffered again");
}

#[test]
fn unfit_transactions_are_dropped_when_the_block_size_shrinks() {
    let mut block_sizes = BTreeMap::new();
    block_sizes.insert(0, 100);
    block_sizes.insert(5, 40);
    let mut b: BlockBuilder<&'static str> =
        BlockBuilder::new(BlockBuilderConfig { max_retry_bytes: 1000, block_sizes, ttl: 50, dedup_window_size: 2 });
    b.on_submit_transaction("a", 1, 60, 10);
    b.on_submit_transaction("b", 2, 30, 10);
    assert_eq!(b.on_view_changed(4), vec![2]);
    assert_eq!(b.outstanding_transactions(), (1, 30));
}

#[test]
fn the_default_configuration() {
    let c = BlockBuilderConfig::default();
    assert_eq!(c.max_retry_bytes, 100 * 1024 * 1024);
    assert_eq!(c.block_sizes.get(&0), Some(&(2 * 1024 * 1024)));
    assert_eq!(c.block_sizes.len(), 1);
    assert_eq!(c.ttl, 50);
    assert_eq!(c.dedup_window_size, 10);
}
