use hotshot_new_protocol::vid_shares::{ShareOutcome, VidShareCollector};

#[test]
fn shares_count_once_per_key_until_the_threshold() {
    let mut c = VidShareCollector::new();
    assert_eq!(c.on_share(3, 1, 2, 5, true), ShareOutcome::Accumulated);
    assert_eq!(c.on_share(3, 1, 2, 5, true), ShareOutcome::Duplicate);
    assert_eq!(c.weight(3), 2);
    assert_eq!(c.on_share(3, 2, 2, 5, true), ShareOutcome::Accumulated);
    assert_eq!(c.on_share(3, 3, 1, 9, false), ShareOutcome::Reconstruct, "the first share fixed the threshold");
    assert_eq!(c.weight(3), 5);
    c.on_reconstructed(3);
    assert_eq!(c.on_share(3, 4, 1, 5, true), ShareOutcome::Ignored);
    assert_eq!(c.weight(3), 0);
}

#[test]
fn without_metadata_no_recovery_is_attempted() {
    let mut c = VidShareCollector::new();
    assert_eq!(c.on_share(4, 1, 10, 5, false), ShareOutcome::Accumulated);
    assert_eq!(c.on_share(4, 2, 10, 5, true), ShareOutcome::Accumulated);
}
