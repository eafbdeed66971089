use hotshot_new_protocol::cert_verifier::{
    CertBySenderVerifier, CertVerifier, CertVerifiers, CheckOutcome, Completion, Finished, Submission,
};
use std::collections::BTreeSet;

fn ready(epochs: &[u64]) -> BTreeSet<u64> {
    epochs.iter().copied().collect()
}

/// Submit `sender`'s item of `view` in `epoch`, and if it goes to be checked,
/// report it invalid, as an unsigned certificate would be.
fn examine(v: &mut CertBySenderVerifier<&'static str>, sender: u64, view: u64, epoch: u64) -> bool {
    match v.verify(sender, view, Some(epoch), "junk", &ready(&[0, 1])) {
        Submission::Verify { key, epoch: e, .. } => {
            assert_eq!(key, sender);
            assert_eq!(e, epoch);
            assert!(!v.task_finished(sender, CheckOutcome::Invalid, view, epoch));
            true
        },
        _ => false,
    }
}

#[test]
fn completing_one_epoch_leaves_the_other_open() {
    let mut v = CertBySenderVerifier::new(Completion::PerViewAndEpoch);
    let (old, new) = (0u64, 1u64);
    v.mark_completed(1, old);

    assert!(examine(&mut v, 0, 1, new));
    assert_eq!(v.num_invalid_certs(), 1);

    assert!(!examine(&mut v, 0, 1, old));
    assert_eq!(v.num_invalid_certs(), 1);
}

#[test]
fn completing_a_view_retires_every_epoch_of_it() {
    let mut v = CertBySenderVerifier::new(Completion::PerView);
    let (ours, theirs) = (0u64, 1u64);
    v.mark_completed(1, ours);
    for epoch in [ours, theirs] {
        assert!(!examine(&mut v, 0, 1, epoch));
        assert_eq!(v.num_invalid_certs(), 0, "a retired view must not be examined again under {epoch}");
    }
    assert!(examine(&mut v, 0, 2, theirs));
    assert_eq!(v.num_invalid_certs(), 1);
}

#[test]
fn a_sender_holds_one_check_at_a_time() {
    let mut v = CertBySenderVerifier::new(Completion::PerView);
    assert!(matches!(v.verify(4, 5, Some(0), "a", &ready(&[0])), Submission::Verify { key: 4, .. }));
    assert!(matches!(v.verify(4, 6, Some(0), "b", &ready(&[0])), Submission::Dropped));
    assert!(v.task_finished(4, CheckOutcome::Valid, 5, 0));
    assert!(!v.task_finished(4, CheckOutcome::Valid, 5, 0), "a completed view is handed on once");
    assert!(matches!(v.verify(4, 6, Some(0), "b", &ready(&[0])), Submission::Verify { .. }));
}

#[test]
fn an_unknown_committee_parks_the_item() {
    let mut v = CertBySenderVerifier::new(Completion::PerView);
    assert!(matches!(v.verify(4, 5, Some(3), "a", &ready(&[0])), Submission::AwaitingMembership(3)));
    assert!(matches!(v.verify(4, 5, None, "a", &ready(&[0])), Submission::Dropped));
    v.gc(6);
    assert!(matches!(v.verify(4, 5, Some(0), "a", &ready(&[0])), Submission::Dropped), "stale");
}

#[test]
fn one_check_per_key_and_the_next_sender_after_an_invalid_one() {
    let mut v: CertVerifier<&'static str> = CertVerifier::new();
    let r = ready(&[1]);
    assert!(matches!(v.verify(1, Some(10), Some(1), "first", &r), Submission::Verify { key: 10, epoch: 1, cert: "first" }));
    assert!(matches!(v.verify(2, Some(10), Some(1), "second", &r), Submission::Queued));
    assert!(matches!(v.verify(2, Some(10), Some(1), "again", &r), Submission::Dropped), "one slot per sender and key");
    match v.task_finished(10, CheckOutcome::Invalid, &r) {
        Finished::Next(Submission::Verify { key: 10, cert: "second", .. }) => {},
        _ => panic!("the next sender's item is checked"),
    }
    assert_eq!(v.num_invalid_certs(), 1);
    assert!(matches!(v.task_finished(10, CheckOutcome::Valid, &r), Finished::Accepted));
    assert!(matches!(v.verify(3, Some(10), Some(1), "late", &r), Submission::Dropped), "a done key takes nothing more");
}

#[test]
fn items_waiting_for_a_committee_are_retried() {
    let mut v: CertVerifier<&'static str> = CertVerifier::new();
    assert!(matches!(v.verify(1, Some(10), Some(2), "a", &ready(&[])), Submission::AwaitingMembership(2)));
    assert!(matches!(v.verify(1, Some(11), Some(3), "b", &ready(&[])), Submission::AwaitingMembership(3)));
    let (missing, submitted) = v.retry_pending(&ready(&[2]));
    assert_eq!(missing, vec![3]);
    assert_eq!(submitted.len(), 1);
    assert!(matches!(submitted[0], Submission::Verify { key: 10, epoch: 2, cert: "a" }));
}

#[test]
fn marking_complete_and_gc() {
    let mut v: CertVerifier<&'static str> = CertVerifier::new();
    v.mark_completed(10);
    assert!(matches!(v.verify(1, Some(10), Some(1), "a", &ready(&[1])), Submission::Dropped));
    v.gc(20);
    assert!(matches!(v.verify(1, Some(15), Some(1), "a", &ready(&[1])), Submission::Dropped));
    assert!(matches!(v.verify(1, Some(20), Some(1), "a", &ready(&[1])), Submission::Verify { .. }));
    assert!(matches!(v.verify(1, None, Some(1), "a", &ready(&[1])), Submission::Dropped));
}

#[test]
fn waiting_senders_are_retried_in_order() {
    let mut v = CertBySenderVerifier::new(Completion::PerView);
    assert!(matches!(v.verify(7, 3, Some(2), "x", &ready(&[0])), Submission::AwaitingMembership(2)));
    assert!(matches!(v.verify(4, 3, Some(5), "y", &ready(&[0])), Submission::AwaitingMembership(5)));
    let (missing, started) = v.retry_pending(&ready(&[2]));
    assert_eq!(missing, vec![5]);
    assert_eq!(started.len(), 1);
    assert!(matches!(started[0], Submission::Verify { key: 7, epoch: 2, cert: "x" }));
    let (missing, started) = v.retry_pending(&ready(&[5]));
    assert!(missing.is_empty());
    assert!(matches!(started[0], Submission::Verify { key: 4, epoch: 5, cert: "y" }));
}

#[test]
fn all_verifiers_are_retried_and_collected_together() {
    let mut all: CertVerifiers<&str, &str, &str, &str, &str, &str> = CertVerifiers::new();
    assert!(matches!(all.cert1.verify(1, Some(4), Some(9), "a", &ready(&[])), Submission::AwaitingMembership(9)));
    assert!(matches!(all.timeout.verify(2, 4, Some(8), "b", &ready(&[])), Submission::AwaitingMembership(8)));
    assert!(matches!(all.epoch_change.verify(3, Some(1), Some(7), "c", &ready(&[])), Submission::AwaitingMembership(7)));
    let (missing, started) = all.retry_pending(&ready(&[8]));
    assert_eq!(missing, vec![9, 7]);
    assert!(matches!(started.timeout[..], [Submission::Verify { key: 2, epoch: 8, cert: "b" }]));
    assert!(started.cert1.is_empty() && started.epoch_change.is_empty());
    assert_eq!(all.num_invalid_certs(), 0);
    all.gc(5, 2);
    let (missing, _) = all.retry_pending(&ready(&[]));
    assert!(missing.is_empty(), "what waited below the bounds is forgotten");
}
