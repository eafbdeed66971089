use hotshot_new_protocol::serve::{after_send, request_served, SendOutcome, ServeAnswer, Server, RETAINED_BLOCKS};

fn server() -> Server {
    Server::new(7)
}

fn payload() -> Vec<u8> {
    vec![1, 2, 3]
}

/// A freshly obtained block is servable at once, but the lock has not reached it.
#[test]
fn retaining_a_block_does_not_move_the_lock() {
    let mut server = server();
    server.retain(1, 0, payload());

    assert!(server.locked().is_none());
    assert!(server.holds(1));
}

#[test]
fn locking_a_retained_view_keeps_its_block() {
    let mut server = server();
    server.retain(1, 0, payload());
    server.lock_moved(1);

    assert_eq!(server.locked(), Some(1));
    assert!(server.holds(1));
}

#[test]
fn any_retained_block_serves_its_view() {
    let mut server = server();
    server.retain(1, 0, payload());
    server.lock_moved(1);
    server.retain(2, 0, payload());

    assert!(server.holds(1));
    assert!(server.holds(2));
    assert!(!server.holds(3));
}

#[test]
fn a_late_certificate_still_finds_its_block() {
    let mut server = server();
    server.retain(1, 0, payload());
    server.retain(2, 0, payload());
    server.retain(3, 0, payload());
    server.lock_moved(1);

    assert_eq!(server.locked(), Some(1));
    assert!(server.holds(1));
}

#[test]
fn an_earlier_block_does_not_displace_a_later_one() {
    let mut server = server();
    server.retain(2, 0, payload());
    server.retain(1, 0, payload());

    assert!(server.holds(1));
    assert!(server.holds(2));
}

#[test]
fn eviction_spares_the_locked_block() {
    let mut server = server();
    server.retain(1, 0, payload());
    server.lock_moved(1);
    for v in 2..=(RETAINED_BLOCKS as u64 + 2) {
        server.retain(v, 0, payload());
    }

    assert_eq!(server.retained(), RETAINED_BLOCKS);
    assert!(server.holds(1), "the locked block is never evicted");
    assert!(!server.holds(2), "the earliest unlocked block goes first");
}

#[test]
fn locking_an_evicted_view_keeps_the_old_lock() {
    let mut server = server();
    server.retain(1, 0, payload());
    server.lock_moved(1);
    server.lock_moved(9);
    assert_eq!(server.locked(), Some(1));
}

#[test]
fn a_request_outside_a_timeout_window_gets_no_answer() {
    let mut server = server();
    server.retain(5, 11, payload());
    assert!(matches!(server.handle_request(5, 5, 1000), ServeAnswer::Silence));
    server.view_timed_out(5);
    assert!(server.serving(8));
    assert!(!server.serving(9));
    assert!(matches!(server.handle_request(5, 9, 1000), ServeAnswer::Silence));
}

#[test]
fn a_request_in_a_timeout_window_is_answered() {
    let mut server = server();
    server.retain(5, 11, payload());
    server.view_timed_out(6);
    server.view_timed_out(4);
    match server.handle_request(5, 7, 1000) {
        ServeAnswer::Payload { commitment, data } => {
            assert_eq!(commitment, 11);
            assert_eq!(data, payload());
        },
        _ => panic!("expected the payload"),
    }
    assert!(matches!(server.handle_request(4, 7, 1000), ServeAnswer::NotAvailable));
    assert!(matches!(server.handle_request(5, 7, 3), ServeAnswer::TooLarge));
}

#[test]
fn a_payload_refused_as_too_large_is_followed_by_a_too_large_answer() {
    let answer = ServeAnswer::Payload { commitment: 3, data: payload() };
    assert!(matches!(after_send(&answer, SendOutcome::TooLarge), Some(ServeAnswer::TooLarge)));
    assert!(after_send(&answer, SendOutcome::Sent).is_none());
    assert!(after_send(&answer, SendOutcome::Failed).is_none());
    assert!(after_send(&ServeAnswer::NotAvailable, SendOutcome::TooLarge).is_none());
    assert!(request_served(SendOutcome::TooLarge, Some(SendOutcome::Sent)));
    assert!(!request_served(SendOutcome::TooLarge, Some(SendOutcome::Failed)));
    assert!(request_served(SendOutcome::Sent, None));
    assert!(!request_served(SendOutcome::Failed, None));
}
