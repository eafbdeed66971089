//! Routing of epoch-root votes to the collections that form the pair of
//! certificates of an epoch-root view.
//!
//! An epoch-root first vote carries a quorum vote and a light-client state
//! vote; per view both are tallied from the same stream, and the pair goes
//! out only once both cross their threshold, so consensus never sees an
//! epoch-root quorum certificate without its state certificate. This decides
//! where each vote goes; the tallying is the caller's.
use std::collections::{BTreeMap, BTreeSet};
use vstd::prelude::*;

verus! {

broadcast use vstd::std_specs::btree::group_btree_axioms, vstd::laws_cmp::group_laws_cmp;

/// An epoch-root vote and what the routing reads of it.
pub struct RootVote<V> {
    pub vote: V,
    pub view: u64,
    pub epoch: Option<u64>,
    pub signer: u64,
    pub has_state_vote: bool,
}

/// Where a vote goes.
pub enum VoteRoute<V> {
    /// Nowhere: no state vote, stale, its view done, or its signer already
    /// voted in the view.
    Dropped,
    /// It waits for its epoch's committee.
    Parked,
    /// Into the view's open collection.
    Deliver(V),
    /// Into a new collection for its view, opened with it.
    Open(V),
}

pub struct EpochRootVoteCollector<V> {
    /// Views with an open collection.
    ballot_boxes: BTreeSet<u64>,
    /// Votes waiting for their epoch's committee, by view.
    pending: BTreeMap<u64, Vec<RootVote<V>>>,
    /// Views whose certificates formed.
    completed: BTreeSet<u64>,
    /// Who voted, per view.
    signers: BTreeMap<u64, BTreeSet<u64>>,
    lower_bound: u64,
}

impl<V> EpochRootVoteCollector<V> {
    pub closed spec fn spec_open(&self) -> Set<u64> {
        self.ballot_boxes@
    }

    pub closed spec fn spec_pending(&self) -> Map<u64, Seq<RootVote<V>>> {
        Map::new(|v: u64| self.pending@.contains_key(v), |v: u64| self.pending@[v]@)
    }

    pub closed spec fn spec_completed(&self) -> Set<u64> {
        self.completed@
    }

    pub closed spec fn spec_signers(&self) -> Map<u64, Set<u64>> {
        Map::new(|v: u64| self.signers@.contains_key(v), |v: u64| self.signers@[v]@)
    }

    pub closed spec fn spec_lower_bound(&self) -> u64 {
        self.lower_bound
    }

    /// Whether `signer` voted in `view`.
    pub open spec fn voted(&self, view: u64, signer: u64) -> bool {
        self.spec_signers().contains_key(view) && self.spec_signers()[view].contains(signer)
    }

    pub fn new() -> (r: Self)
        ensures
            r.spec_open() == Set::<u64>::empty(),
            r.spec_pending() == Map::<u64, Seq<RootVote<V>>>::empty(),
            r.spec_completed() == Set::<u64>::empty(),
            r.spec_signers() == Map::<u64, Set<u64>>::empty(),
            r.spec_lower_bound() == 0,
    {
        let r = EpochRootVoteCollector {
            ballot_boxes: BTreeSet::new(),
            pending: BTreeMap::new(),
            completed: BTreeSet::new(),
            signers: BTreeMap::new(),
            lower_bound: 0,
        };
        assert(r.spec_pending() =~= Map::<u64, Seq<RootVote<V>>>::empty());
        assert(r.spec_signers() =~= Map::<u64, Set<u64>>::empty());
        r
    }

    /// Route `vote`; `ready` holds the epochs whose committee is known.
    pub fn accumulate_vote(&mut self, vote: RootVote<V>, ready: &BTreeSet<u64>) -> (r: VoteRoute<V>)
        ensures
            routed(*old(self), *final(self), vote, ready@, r),
    {
        let view = vote.view;
        if !vote.has_state_vote || view < self.lower_bound || self.completed.contains(&view) {
            return VoteRoute::Dropped;
        }
        let known = match vote.epoch {
            Some(e) => ready.contains(&e),
            None => false,
        };
        if !known {
            let mut parked = match self.pending.remove(&view) {
                Some(p) => p,
                None => Vec::new(),
            };
            parked.push(vote);
            self.pending.insert(view, parked);
            proof {
                assert(self.spec_pending() =~= old(self).spec_pending().insert(
                    view,
                    (if old(self).spec_pending().contains_key(view) {
                        old(self).spec_pending()[view]
                    } else {
                        Seq::empty()
                    }).push(vote),
                ));
                assert(self.spec_signers() =~= old(self).spec_signers());
            }
            return VoteRoute::Parked;
        }
        let mut signers = match self.signers.remove(&view) {
            Some(s) => s,
            None => BTreeSet::new(),
        };
        let fresh = signers.insert(vote.signer);
        self.signers.insert(view, signers);
        if !fresh {
            proof {
                assert(self.signers@[view]@ =~= old(self).signers@[view]@);
                assert(self.spec_signers() =~= old(self).spec_signers());
                assert(self.spec_pending() =~= old(self).spec_pending());
            }
            return VoteRoute::Dropped;
        }
        proof {
            assert(self.spec_signers() =~= old(self).spec_signers().insert(
                view,
                (if old(self).spec_signers().contains_key(view) {
                    old(self).spec_signers()[view]
                } else {
                    Set::empty()
                }).insert(vote.signer),
            ));
            assert(self.spec_pending() =~= old(self).spec_pending());
        }
        if self.ballot_boxes.contains(&view) {
            return VoteRoute::Deliver(vote.vote);
        }
        self.ballot_boxes.insert(view);
        VoteRoute::Open(vote.vote)
    }

    /// The collection of `view` closed, with its pair of certificates formed
    /// or not. Formed for a view not gone stale, it completes the view and is
    /// handed on.
    pub fn collection_closed(&mut self, view: u64, formed: bool) -> (r: bool)
        ensures
            r == (formed && view >= old(self).spec_lower_bound()),
            final(self).spec_open() == old(self).spec_open().remove(view),
            final(self).spec_completed() == if r {
                old(self).spec_completed().insert(view)
            } else {
                old(self).spec_completed()
            },
            final(self).spec_pending() == old(self).spec_pending(),
            final(self).spec_signers() == old(self).spec_signers(),
            final(self).spec_lower_bound() == old(self).spec_lower_bound(),
    {
        self.ballot_boxes.remove(&view);
        if formed && view >= self.lower_bound {
            self.completed.insert(view);
            true
        } else {
            false
        }
    }

    /// Take every parked vote, oldest view first, to be routed again.
    pub fn take_pending(&mut self) -> (r: Vec<RootVote<V>>)
        ensures
            exists|views: Seq<u64>| #![auto]
                increasing(views) && views.to_set() == old(self).spec_pending().dom()
                && r@ == parked_in_order(old(self).spec_pending(), views),
            final(self).spec_pending() == Map::<u64, Seq<RootVote<V>>>::empty(),
            final(self).spec_open() == old(self).spec_open(),
            final(self).spec_completed() == old(self).spec_completed(),
            final(self).spec_signers() == old(self).spec_signers(),
            final(self).spec_lower_bound() == old(self).spec_lower_bound(),
    {
        let ghost orig = self.spec_pending();
        let mut parked: BTreeMap<u64, Vec<RootVote<V>>> = BTreeMap::new();
        std::mem::swap(&mut parked, &mut self.pending);
        let views = crate::collections::sorted_keys(&parked);
        proof {
            assert forall|j: int| 0 <= j < views.len() implies #[trigger] parked@.contains_key(views@[j])
                && parked@[views@[j]]@ == orig[views@[j]] by {
                assert(views@.contains(views@[j]));
            }
        }
        let mut out: Vec<RootVote<V>> = Vec::new();
        let mut i: usize = 0;
        while i < views.len()
            invariant
                0 <= i <= views.len(),
                increasing(views@),
                forall|k: u64| views@.contains(k) <==> orig.contains_key(k),
                forall|j: int| i <= j < views.len() ==> #[trigger] parked@.contains_key(views@[j])
                    && parked@[views@[j]]@ == orig[views@[j]],
                out@ == parked_in_order(orig, views@.take(i as int)),
            decreases views.len() - i,
        {
            let v = views[i];
            assert(parked@.contains_key(views@[i as int]));
            let ghost before = parked@;
            match parked.remove(&v) {
                Some(mut votes) => {
                    assert(votes@ == orig[v]);
                    out.append(&mut votes);
                },
                None => {},
            }
            proof {
                assert(views@.take(i as int + 1).drop_last() =~= views@.take(i as int));
                assert forall|j: int| i + 1 <= j < views.len() implies #[trigger] parked@.contains_key(views@[j])
                    && parked@[views@[j]]@ == orig[views@[j]] by {
                    assert(views@[j] != v);
                    assert(before.contains_key(views@[j]));
                }
            }
            i = i + 1;
        }
        proof {
            assert(views@.take(views.len() as int) =~= views@);
            assert(views@.to_set() =~= orig.dom());
            assert(self.spec_pending() =~= Map::<u64, Seq<RootVote<V>>>::empty());
        }
        out
    }

    /// Forget the views before `view`, and route nothing before it again.
    pub fn gc(&mut self, view: u64)
        ensures
            final(self).spec_open() == old(self).spec_open().filter(|v: u64| v >= view),
            final(self).spec_completed() == old(self).spec_completed().filter(|v: u64| v >= view),
            final(self).spec_pending() == old(self).spec_pending().restrict(old(self).spec_pending().dom().filter(|v: u64| v >= view)),
            final(self).spec_signers() == old(self).spec_signers().restrict(old(self).spec_signers().dom().filter(|v: u64| v >= view)),
            final(self).spec_lower_bound() == view,
    {
        crate::collections::set_retain_from(&mut self.ballot_boxes, view);
        crate::collections::set_retain_from(&mut self.completed, view);
        crate::collections::map_retain_from(&mut self.pending, view);
        crate::collections::map_retain_from(&mut self.signers, view);
        self.lower_bound = view;
        proof {
            assert(self.spec_pending() =~= old(self).spec_pending().restrict(old(self).spec_pending().dom().filter(|v: u64| v >= view)));
            assert(self.spec_signers() =~= old(self).spec_signers().restrict(old(self).spec_signers().dom().filter(|v: u64| v >= view)));
        }
    }
}


/// What routing `vote` does to a collector `a`, leaving `b` and answering
/// `r`, when `ready` holds the epochs whose committee is known: as
/// [`EpochRootVoteCollector::accumulate_vote`] says.
pub open spec fn routed<V>(a: EpochRootVoteCollector<V>, b: EpochRootVoteCollector<V>, vote: RootVote<V>, ready: Set<u64>, r: VoteRoute<V>) -> bool {
    &&& b.spec_completed() == a.spec_completed()
    &&& b.spec_lower_bound() == a.spec_lower_bound()
    &&& {
        let view = vote.view;
        let dropped = !vote.has_state_vote || view < a.spec_lower_bound() || a.spec_completed().contains(view);
        let known = vote.epoch matches Some(e) && ready.contains(e);
        &&& dropped ==> r is Dropped && b.spec_open() == a.spec_open()
            && b.spec_pending() == a.spec_pending()
            && b.spec_signers() == a.spec_signers()
        &&& !dropped && !known ==> r is Parked && b.spec_open() == a.spec_open()
            && b.spec_signers() == a.spec_signers()
            && b.spec_pending() == a.spec_pending().insert(
                view,
                (if a.spec_pending().contains_key(view) {
                    a.spec_pending()[view]
                } else {
                    Seq::empty()
                }).push(vote),
            )
        &&& !dropped && known && a.voted(view, vote.signer) ==> r is Dropped
            && b.spec_open() == a.spec_open()
            && b.spec_pending() == a.spec_pending()
            && b.spec_signers() == a.spec_signers()
        &&& !dropped && known && !a.voted(view, vote.signer) ==> {
            &&& b.voted(view, vote.signer)
            &&& b.spec_signers() == a.spec_signers().insert(
                view,
                (if a.spec_signers().contains_key(view) {
                    a.spec_signers()[view]
                } else {
                    Set::empty()
                }).insert(vote.signer),
            )
            &&& b.spec_pending() == a.spec_pending()
            &&& a.spec_open().contains(view) ==> r == VoteRoute::Deliver(vote.vote)
                && b.spec_open() == a.spec_open()
            &&& !a.spec_open().contains(view) ==> r == VoteRoute::Open(vote.vote)
                && b.spec_open() == a.spec_open().insert(view)
        }
    }
}

/// A signer counts once per view: once its vote of a view is delivered or
/// opens the view's collection, another vote of it for that view, of an
/// epoch whose committee is known, is dropped.
pub proof fn law_one_vote_per_signer<V>(
    a: EpochRootVoteCollector<V>, b: EpochRootVoteCollector<V>, c: EpochRootVoteCollector<V>,
    v1: RootVote<V>, ready1: Set<u64>, r1: VoteRoute<V>,
    v2: RootVote<V>, ready2: Set<u64>, r2: VoteRoute<V>,
)
    requires
        routed(a, b, v1, ready1, r1),
        r1 is Deliver || r1 is Open,
        routed(b, c, v2, ready2, r2),
        v2.view == v1.view,
        v2.signer == v1.signer,
        v2.epoch matches Some(e) && ready2.contains(e),
    ensures
        r2 is Dropped,
{
}

/// The numbers come in increasing order.
pub open spec fn increasing(s: Seq<u64>) -> bool {
    forall|i: int, j: int| 0 <= i < j < s.len() ==> s[i] < s[j]
}

/// The votes parked under `views`, view after view.
pub open spec fn parked_in_order<V>(m: Map<u64, Seq<RootVote<V>>>, views: Seq<u64>) -> Seq<RootVote<V>>
    decreases views.len(),
{
    if views.len() == 0 {
        Seq::empty()
    } else {
        parked_in_order(m, views.drop_last()) + m[views.last()]
    }
}

} // verus!
