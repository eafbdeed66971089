use hotshot_new_protocol::limits::{forward_budget, message_limit, MIN_MESSAGE_LIMIT};

#[test]
fn small_blocks_keep_the_released_limit() {
    assert_eq!(message_limit(0), MIN_MESSAGE_LIMIT);
    assert_eq!(message_limit(10_000_000), MIN_MESSAGE_LIMIT);
}

#[test]
fn large_blocks_get_room_for_their_envelope() {
    assert_eq!(message_limit(20 * 1024 * 1024), 20 * 1024 * 1024 + 64 * 1024);
    assert_eq!(message_limit(u64::MAX), usize::MAX);
}

#[test]
fn the_forward_budget_leaves_room_for_the_envelope() {
    assert_eq!(forward_budget(10_000), 10_000 - 4096);
    assert_eq!(forward_budget(100), 0);
    assert_eq!(forward_budget(message_limit(0)), 10 * 1024 * 1024 - 4096);
}
