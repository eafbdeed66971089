use hotshot_new_protocol::epoch_root::{EpochRootVoteCollector, RootVote, VoteRoute};
use std::collections::BTreeSet;

fn vote(view: u64, signer: u64, epoch: Option<u64>) -> RootVote<u64> {
    RootVote { vote: signer * 100 + view, view, epoch, signer, has_state_vote: true }
}

fn ready() -> BTreeSet<u64> {
    [1u64].into_iter().collect()
}

#[test]
fn the_first_vote_opens_a_collection_and_the_rest_join_it() {
    let mut c = EpochRootVoteCollector::new();
    assert!(matches!(c.accumulate_vote(vote(5, 1, Some(1)), &ready()), VoteRoute::Open(105)));
    assert!(matches!(c.accumulate_vote(vote(5, 2, Some(1)), &ready()), VoteRoute::Deliver(205)));
    assert!(matches!(c.accumulate_vote(vote(5, 2, Some(1)), &ready()), VoteRoute::Dropped), "one vote per signer");
    assert!(c.collection_closed(5, true));
    assert!(matches!(c.accumulate_vote(vote(5, 3, Some(1)), &ready()), VoteRoute::Dropped), "a done view");
}

#[test]
fn a_vote_without_a_state_vote_is_dropped() {
    let mut c = EpochRootVoteCollector::new();
    let mut v = vote(5, 1, Some(1));
    v.has_state_vote = false;
    assert!(matches!(c.accumulate_vote(v, &ready()), VoteRoute::Dropped));
}

#[test]
fn votes_of_an_unknown_committee_are_parked_and_taken_back() {
    let mut c = EpochRootVoteCollector::new();
    assert!(matches!(c.accumulate_vote(vote(6, 1, Some(2)), &ready()), VoteRoute::Parked));
    assert!(matches!(c.accumulate_vote(vote(4, 1, None), &ready()), VoteRoute::Parked));
    let parked = c.take_pending();
    assert_eq!(parked.iter().map(|v| v.view).collect::<Vec<_>>(), vec![4, 6]);
    assert!(c.take_pending().is_empty());
}

#[test]
fn gc_forgets_earlier_views() {
    let mut c = EpochRootVoteCollector::new();
    c.gc(10);
    assert!(matches!(c.accumulate_vote(vote(9, 1, Some(1)), &ready()), VoteRoute::Dropped));
    assert!(!c.collection_closed(9, true), "a stale view is not handed on");
    assert!(matches!(c.accumulate_vote(vote(10, 1, Some(1)), &ready()), VoteRoute::Open(_)));
}

#[test]
fn a_repeated_vote_of_an_unknown_epoch_waits_and_is_dropped_once_known() {
    let mut c = EpochRootVoteCollector::new();
    assert!(matches!(c.accumulate_vote(vote(5, 1, Some(1)), &ready()), VoteRoute::Open(105)));
    assert!(matches!(c.accumulate_vote(vote(5, 1, Some(2)), &ready()), VoteRoute::Parked));
    let parked = c.take_pending();
    assert_eq!(parked.len(), 1);
    let known: BTreeSet<u64> = [1u64, 2].into_iter().collect();
    for v in parked {
        assert!(matches!(c.accumulate_vote(v, &known), VoteRoute::Dropped));
    }
}
