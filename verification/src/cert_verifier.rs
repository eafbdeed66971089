//! The bookkeeping of certificate verification.
//!
//! Checking a certificate's threshold signature is slow, so it runs off the
//! consensus loop; this decides which certificate is checked when. Items are
//! deduplicated per (key, sender) and checked one at a time per key, trying
//! the next sender's item if one proves invalid, so a faulty sender can
//! neither shadow a key nor hold more than one slot per key. An item whose
//! epoch's committee is not known yet waits until it is.
use crate::collections::pair_lt;
use std::collections::{BTreeMap, BTreeSet};
use vstd::prelude::*;
use vstd::std_specs::iter::IteratorSpec;

verus! {

broadcast use vstd::std_specs::btree::group_btree_axioms, vstd::laws_cmp::group_laws_cmp,
    vstd::seq_lib::group_seq_properties;

/// What becomes of an item submitted for checking.
pub enum Submission<C> {
    /// Nothing: it has no key or epoch, is stale, its key is done, or its
    /// sender already holds a slot for the key.
    Dropped,
    /// It waits for the check of another item with its key.
    Queued,
    /// It waits for the committee of this epoch, whose catch-up the caller
    /// should drive.
    AwaitingMembership(u64),
    /// Check it now.
    Verify { key: u64, epoch: u64, cert: C },
}

/// What a finished check leads to.
pub enum Finished<C> {
    /// The certificate is valid and its key done: hand it on.
    Accepted,
    /// Nothing more to do.
    Idle,
    /// The next sender's item for the key, submitted anew.
    Next(Submission<C>),
}

pub struct CertVerifier<C> {
    /// Keys with a check in flight.
    running: BTreeSet<u64>,
    /// Items waiting for the check in flight of their key, by key and
    /// sender, with their epoch.
    pending_task: BTreeMap<u64, BTreeMap<u64, (u64, C)>>,
    /// Items waiting for their epoch's committee, by key and sender, with
    /// that epoch.
    pending_membership: BTreeMap<u64, BTreeMap<u64, (u64, C)>>,
    completed: BTreeSet<u64>,
    lower_bound: Option<u64>,
    invalid_certs: u64,
}

/// Whether `m` holds an item of `sender` under `key`.
pub open spec fn holds<V>(m: Map<u64, Map<u64, V>>, key: u64, sender: u64) -> bool {
    m.contains_key(key) && m[key].contains_key(sender)
}

/// `m` with `v` filed under `key` and `sender`.
pub open spec fn nested_insert<V>(m: Map<u64, Map<u64, V>>, key: u64, sender: u64, v: V) -> Map<u64, Map<u64, V>> {
    m.insert(
        key,
        (if m.contains_key(key) {
            m[key]
        } else {
            Map::empty()
        }).insert(sender, v),
    )
}

/// Whether `key` is below the garbage-collection bound.
pub open spec fn stale(lower_bound: Option<u64>, key: u64) -> bool {
    lower_bound matches Some(lb) && key < lb
}

/// File `v` under `key` and `sender` in `m`.
fn file_under<V>(m: &mut BTreeMap<u64, BTreeMap<u64, V>>, key: u64, sender: u64, v: V)
    ensures
        nested_view(*final(m)) == nested_insert(nested_view(*old(m)), key, sender, v),
{
    let mut inner = match m.remove(&key) {
        Some(i) => i,
        None => BTreeMap::new(),
    };
    inner.insert(sender, v);
    m.insert(key, inner);
    proof {
        assert(nested_view(*m) =~= nested_insert(nested_view(*old(m)), key, sender, v));
    }
}

/// A map of maps, as a map of their views.
pub open spec fn nested_view<V>(m: BTreeMap<u64, BTreeMap<u64, V>>) -> Map<u64, Map<u64, V>> {
    Map::new(|k: u64| m@.contains_key(k), |k: u64| m@[k]@)
}

/// What submitting `sender`'s item `cert`, with its `key` and `epoch`, does
/// to a verifier `a`, leaving `b` and answering `r`, when `ready` holds the
/// epochs whose committee is known: as [`CertVerifier::verify`] says.
pub open spec fn submitted<C>(a: CertVerifier<C>, b: CertVerifier<C>, sender: u64, key: Option<u64>, epoch: Option<u64>, cert: C, ready: Set<u64>, r: Submission<C>) -> bool {
    let dropped = match (key, epoch) {
        (Some(k), Some(_)) => stale(a.spec_lower_bound(), k) || a.spec_completed().contains(k)
            || holds(a.spec_pending_task(), k, sender) || holds(a.spec_pending_membership(), k, sender),
        _ => true,
    };
    &&& b.spec_completed() == a.spec_completed()
    &&& b.spec_lower_bound() == a.spec_lower_bound()
    &&& b.spec_invalid() == a.spec_invalid()
    &&& dropped ==> r is Dropped && b.spec_running() == a.spec_running()
        && b.spec_pending_task() == a.spec_pending_task()
        && b.spec_pending_membership() == a.spec_pending_membership()
    &&& !dropped ==> {
        let k = key.unwrap();
        let e = epoch.unwrap();
        &&& a.spec_running().contains(k) ==> r is Queued
            && b.spec_pending_task() == nested_insert(a.spec_pending_task(), k, sender, (e, cert))
            && b.spec_running() == a.spec_running()
            && b.spec_pending_membership() == a.spec_pending_membership()
        &&& !a.spec_running().contains(k) && !ready.contains(e) ==> r == Submission::<C>::AwaitingMembership(e)
            && b.spec_pending_membership() == nested_insert(a.spec_pending_membership(), k, sender, (e, cert))
            && b.spec_running() == a.spec_running()
            && b.spec_pending_task() == a.spec_pending_task()
        &&& !a.spec_running().contains(k) && ready.contains(e) ==> r == (Submission::Verify { key: k, epoch: e, cert })
            && b.spec_running() == a.spec_running().insert(k)
            && b.spec_pending_task() == a.spec_pending_task()
            && b.spec_pending_membership() == a.spec_pending_membership()
    }
}

/// `items` lists every item waiting under `m` once, as its key, its sender
/// and what waits, in increasing order of key and, within a key, of sender.
pub open spec fn lists_in_order<V>(m: Map<u64, Map<u64, V>>, items: Seq<(u64, u64, V)>) -> bool {
    &&& forall|a: int, b: int| #![trigger items[a], items[b]] 0 <= a < b < items.len()
        ==> pair_lt((items[a].0, items[a].1), (items[b].0, items[b].1))
    &&& forall|a: int| 0 <= a < items.len() ==> holds(m, #[trigger] items[a].0, items[a].1) && m[items[a].0][items[a].1]
        == items[a].2
    &&& forall|k: u64, s: u64| #[trigger] holds(m, k, s) ==> exists|a: int| 0 <= a < items.len() && items[a].0 == k
        && items[a].1 == s
}

/// The checks started among `results`, in order.
pub open spec fn started<C>(results: Seq<Submission<C>>) -> Seq<Submission<C>>
    decreases results.len(),
{
    if results.len() == 0 {
        Seq::empty()
    } else if results.last() is Verify {
        started(results.drop_last()).push(results.last())
    } else {
        started(results.drop_last())
    }
}

/// The epochs awaited among `results`, in order.
pub open spec fn awaited<C>(results: Seq<Submission<C>>) -> Seq<u64>
    decreases results.len(),
{
    if results.len() == 0 {
        Seq::empty()
    } else {
        match results.last() {
            Submission::AwaitingMembership(e) => awaited(results.drop_last()).push(e),
            _ => awaited(results.drop_last()),
        }
    }
}

/// Submitting `items` anew, in order, takes a verifier through `states`,
/// answering `results`: each step as [`CertVerifier::verify`] says, with the
/// item's key, sender, epoch and certificate.
pub open spec fn resubmitted<C>(states: Seq<CertVerifier<C>>, items: Seq<(u64, u64, (u64, C))>, results: Seq<Submission<C>>, ready: Set<u64>) -> bool {
    &&& states.len() == items.len() + 1
    &&& results.len() == items.len()
    &&& forall|a: int| 0 <= a < items.len() ==> submitted(
        states[a],
        states[a + 1],
        items[a].1,
        Some(items[a].0),
        Some(items[a].2.0),
        items[a].2.1,
        ready,
        #[trigger] results[a],
    )
}

/// One more submission extends a run of them.
proof fn lemma_resubmitted_push<C>(states: Seq<CertVerifier<C>>, items: Seq<(u64, u64, (u64, C))>, results: Seq<Submission<C>>, ready: Set<u64>, next: CertVerifier<C>, item: (u64, u64, (u64, C)), r: Submission<C>)
    requires
        resubmitted(states, items, results, ready),
        submitted(states.last(), next, item.1, Some(item.0), Some(item.2.0), item.2.1, ready, r),
    ensures
        resubmitted(states.push(next), items.push(item), results.push(r), ready),
{
    let s2 = states.push(next);
    let i2 = items.push(item);
    let r2 = results.push(r);
    assert forall|a: int| 0 <= a < i2.len() implies submitted(
        s2[a],
        s2[a + 1],
        i2[a].1,
        Some(i2[a].0),
        Some(i2[a].2.0),
        i2[a].2.1,
        ready,
        #[trigger] r2[a],
    ) by {
        if a < items.len() {
            assert(r2[a] == results[a]);
            assert(s2[a] == states[a] && s2[a + 1] == states[a + 1] && i2[a] == items[a]);
        } else {
            assert(s2[a] == states.last());
        }
    }
}

/// What submitting anew the items of `a` that waited for their committee
/// does, when `ready` holds the epochs whose committee is known: the items
/// are taken in increasing order of key and, within a key, of sender, from
/// `a` with nothing waiting for a committee, each as
/// [`CertVerifier::verify`] takes it, ending in `b`; `missing` are the
/// epochs still awaited and `subs` the checks started, in the order of the
/// items.
pub open spec fn retried<C>(a: CertVerifier<C>, b: CertVerifier<C>, ready: Set<u64>, missing: Seq<u64>, subs: Seq<Submission<C>>) -> bool {
    exists|states: Seq<CertVerifier<C>>, items: Seq<(u64, u64, (u64, C))>, results: Seq<Submission<C>>|
        #![trigger resubmitted(states, items, results, ready)]
        {
            &&& lists_in_order(a.spec_pending_membership(), items)
            &&& resubmitted(states, items, results, ready)
            &&& states[0].spec_running() == a.spec_running()
            &&& states[0].spec_pending_task() == a.spec_pending_task()
            &&& states[0].spec_pending_membership() == Map::<u64, Map<u64, (u64, C)>>::empty()
            &&& states[0].spec_completed() == a.spec_completed()
            &&& states[0].spec_lower_bound() == a.spec_lower_bound()
            &&& states[0].spec_invalid() == a.spec_invalid()
            &&& b == states.last()
            &&& subs == started(results)
            &&& missing == awaited(results)
        }
}

/// What submitting anew the items of `a` that waited for their committee
/// does, when `ready` holds the epochs whose committee is known: the items
/// are taken in increasing order of sender, from `a` with nothing waiting,
/// each as [`CertBySenderVerifier::verify`] takes it, ending in `b`;
/// `missing` are the epochs still awaited and `subs` the checks started, in
/// the order of the items.
pub open spec fn retried_by_sender<C>(a: CertBySenderVerifier<C>, b: CertBySenderVerifier<C>, ready: Set<u64>, missing: Seq<u64>, subs: Seq<Submission<C>>) -> bool {
    exists|states: Seq<CertBySenderVerifier<C>>, items: Seq<(u64, (u64, u64, C))>, results: Seq<Submission<C>>|
        #![trigger resubmitted_by_sender(states, items, results, ready)]
        {
            &&& lists_by_key(a.spec_pending(), items)
            &&& resubmitted_by_sender(states, items, results, ready)
            &&& states[0].spec_running() == a.spec_running()
            &&& states[0].spec_pending() == Map::<u64, (u64, u64, C)>::empty()
            &&& states[0].spec_completed() == a.spec_completed()
            &&& states[0].spec_completion() == a.spec_completion()
            &&& states[0].spec_lower_bound() == a.spec_lower_bound()
            &&& states[0].spec_invalid() == a.spec_invalid()
            &&& b == states.last()
            &&& subs == started(results)
            &&& missing == awaited(results)
        }
}

/// A key is handed on at most once: once it is done, an item of it is
/// dropped, nothing is queued or started for it, and it stays done.
pub proof fn law_done_key_stays_done<C>(
    a: CertVerifier<C>, b: CertVerifier<C>,
    sender: u64, key: u64, epoch: Option<u64>, cert: C, ready: Set<u64>, r: Submission<C>,
)
    requires
        submitted(a, b, sender, Some(key), epoch, cert, ready, r),
        a.spec_completed().contains(key),
    ensures
        r is Dropped,
        b.spec_running() == a.spec_running(),
        b.spec_pending_task() == a.spec_pending_task(),
        b.spec_pending_membership() == a.spec_pending_membership(),
        b.spec_completed().contains(key),
{
}

/// One check at a time per key: while an item of a key is checked, another
/// item of it, from any sender, is queued or dropped, not checked.
pub proof fn law_one_check_per_key<C>(
    a: CertVerifier<C>, b: CertVerifier<C>, c: CertVerifier<C>,
    s1: u64, key: u64, e1: Option<u64>, c1: C, ready1: Set<u64>, r1: Submission<C>,
    s2: u64, e2: Option<u64>, c2: C, ready2: Set<u64>, r2: Submission<C>,
)
    requires
        submitted(a, b, s1, Some(key), e1, c1, ready1, r1),
        r1 is Verify,
        submitted(b, c, s2, Some(key), e2, c2, ready2, r2),
    ensures
        !(r2 is Verify),
{
}

impl<C> CertVerifier<C> {
    /// Nothing checked, running, waiting or refused yet, and no bound.
    pub open spec fn spec_fresh(&self) -> bool {
        &&& self.spec_running() == Set::<u64>::empty()
        &&& self.spec_pending_task() == Map::<u64, Map<u64, (u64, C)>>::empty()
        &&& self.spec_pending_membership() == Map::<u64, Map<u64, (u64, C)>>::empty()
        &&& self.spec_completed() == Set::<u64>::empty()
        &&& self.spec_lower_bound() is None
        &&& self.spec_invalid() == 0
    }

    pub closed spec fn spec_running(&self) -> Set<u64> {
        self.running@
    }

    pub closed spec fn spec_pending_task(&self) -> Map<u64, Map<u64, (u64, C)>> {
        nested_view(self.pending_task)
    }

    pub closed spec fn spec_pending_membership(&self) -> Map<u64, Map<u64, (u64, C)>> {
        nested_view(self.pending_membership)
    }

    pub closed spec fn spec_completed(&self) -> Set<u64> {
        self.completed@
    }

    pub closed spec fn spec_lower_bound(&self) -> Option<u64> {
        self.lower_bound
    }

    pub closed spec fn spec_invalid(&self) -> u64 {
        self.invalid_certs
    }

    pub fn new() -> (r: Self)
        ensures
            r.spec_running() == Set::<u64>::empty(),
            r.spec_pending_task() == Map::<u64, Map<u64, (u64, C)>>::empty(),
            r.spec_pending_membership() == Map::<u64, Map<u64, (u64, C)>>::empty(),
            r.spec_completed() == Set::<u64>::empty(),
            r.spec_lower_bound() is None,
            r.spec_invalid() == 0,
    {
        let r = CertVerifier {
            running: BTreeSet::new(),
            pending_task: BTreeMap::new(),
            pending_membership: BTreeMap::new(),
            completed: BTreeSet::new(),
            lower_bound: None,
            invalid_certs: 0,
        };
        assert(r.spec_pending_task() =~= Map::<u64, Map<u64, (u64, C)>>::empty());
        assert(r.spec_pending_membership() =~= Map::<u64, Map<u64, (u64, C)>>::empty());
        r
    }

    fn is_stale(&self, key: u64) -> (r: bool)
        ensures
            r == stale(self.spec_lower_bound(), key),
    {
        match self.lower_bound {
            Some(lb) => key < lb,
            None => false,
        }
    }

    /// Submit `sender`'s item `cert`, with its `key` and `epoch`, for
    /// checking; `ready` holds the epochs whose committee is known.
    pub fn verify(&mut self, sender: u64, key: Option<u64>, epoch: Option<u64>, cert: C, ready: &BTreeSet<u64>) -> (r: Submission<C>)
        ensures
            submitted(*old(self), *final(self), sender, key, epoch, cert, ready@, r),
    {
        let (k, e) = match (key, epoch) {
            (Some(k), Some(e)) => (k, e),
            _ => return Submission::Dropped,
        };
        if self.is_stale(k) || self.completed.contains(&k) {
            return Submission::Dropped;
        }
        let queued = match self.pending_task.get(&k) {
            Some(senders) => senders.contains_key(&sender),
            None => false,
        };
        let waiting = match self.pending_membership.get(&k) {
            Some(senders) => senders.contains_key(&sender),
            None => false,
        };
        if queued || waiting {
            return Submission::Dropped;
        }
        if self.running.contains(&k) {
            file_under(&mut self.pending_task, k, sender, (e, cert));
            return Submission::Queued;
        }
        if !ready.contains(&e) {
            file_under(&mut self.pending_membership, k, sender, (e, cert));
            return Submission::AwaitingMembership(e);
        }
        self.running.insert(k);
        Submission::Verify { key: k, epoch: e, cert }
    }

    /// Note that `key` was completed by other means, such as from votes.
    pub fn mark_completed(&mut self, key: u64)
        ensures
            stale(old(self).spec_lower_bound(), key) ==> final(self).spec_completed() == old(self).spec_completed()
                && final(self).spec_pending_task() == old(self).spec_pending_task()
                && final(self).spec_pending_membership() == old(self).spec_pending_membership()
                && final(self).spec_running() == old(self).spec_running(),
            !stale(old(self).spec_lower_bound(), key) ==> final(self).spec_completed() == old(self).spec_completed().insert(key)
                && final(self).spec_pending_task() == old(self).spec_pending_task().remove(key)
                && final(self).spec_pending_membership() == old(self).spec_pending_membership().remove(key)
                && final(self).spec_running() == old(self).spec_running().remove(key),
            final(self).spec_lower_bound() == old(self).spec_lower_bound(),
            final(self).spec_invalid() == old(self).spec_invalid(),
    {
        if self.is_stale(key) {
            return;
        }
        self.completed.insert(key);
        self.pending_task.remove(&key);
        self.pending_membership.remove(&key);
        self.running.remove(&key);
        proof {
            assert(self.spec_pending_task() =~= old(self).spec_pending_task().remove(key));
            assert(self.spec_pending_membership() =~= old(self).spec_pending_membership().remove(key));
        }
    }

    /// The number of checks that found an item invalid.
    pub fn num_invalid_certs(&self) -> (r: u64)
        ensures
            r == self.spec_invalid(),
    {
        self.invalid_certs
    }

    /// Take the item of the least sender waiting for `key`'s check.
    fn next_pending_sender(&mut self, key: u64) -> (r: Option<(u64, (u64, C))>)
        ensures
            final(self).spec_running() == old(self).spec_running(),
            final(self).spec_pending_membership() == old(self).spec_pending_membership(),
            final(self).spec_completed() == old(self).spec_completed(),
            final(self).spec_lower_bound() == old(self).spec_lower_bound(),
            final(self).spec_invalid() == old(self).spec_invalid(),
            !old(self).spec_pending_task().contains_key(key) || old(self).spec_pending_task()[key].len() == 0
                ==> r is None && final(self).spec_pending_task() == old(self).spec_pending_task(),
            old(self).spec_pending_task().contains_key(key) && old(self).spec_pending_task()[key].len() > 0 ==> {
                let m = old(self).spec_pending_task()[key];
                let s = least_key(m);
                &&& r == Some((s, m[s]))
                &&& final(self).spec_pending_task() == if m.remove(s).len() == 0 {
                    old(self).spec_pending_task().remove(key)
                } else {
                    old(self).spec_pending_task().insert(key, m.remove(s))
                }
            },
    {
        let mut inner = match self.pending_task.remove(&key) {
            None => return None,
            Some(i) => i,
        };
        let ghost m = inner@;
        let mut best: Option<u64> = None;
        let ghost all = vstd::std_specs::btree::spec_keys_iter(&inner).remaining();
        for k in it: inner.keys()
            invariant
                it.seq() == all,
                all.unref().to_set() == m.dom(),
                inner@ == m,
                match best {
                    None => it.index() == 0,
                    Some(b) => m.contains_key(b) && forall|i: int| 0 <= i < it.index() ==> b <= *#[trigger] all[i],
                },
        {
            assert(*k == *all[it.index() as int]);
            assert(all.unref().contains(*k));
            match best {
                None => best = Some(*k),
                Some(b) => if *k < b {
                    best = Some(*k);
                },
            }
        }
        proof {
            assert forall|j: u64| m.contains_key(j) implies exists|i: int|
                0 <= i < all.len() && *#[trigger] all[i] == j by {
                assert(all.unref().to_set().contains(j));
                let i = choose|i: int| 0 <= i < all.unref().len() && all.unref()[i] == j;
                assert(*all[i] == j);
            }
        }
        let s = match best {
            None => {
                proof {
                    if m.len() > 0 {
                        let j = m.dom().choose();
                        let i = choose|i: int| 0 <= i < all.len() && *#[trigger] all[i] == j;
                    }
                }
                self.pending_task.insert(key, inner);
                proof {
                    assert(self.spec_pending_task() =~= old(self).spec_pending_task());
                }
                return None;
            },
            Some(b) => b,
        };
        proof {
            assert forall|j: u64| m.contains_key(j) implies s <= j by {
                let i = choose|i: int| 0 <= i < all.len() && *#[trigger] all[i] == j;
            }
            assert(least_key(m) == s);
        }
        let item = inner.remove(&s).unwrap();
        if inner.len() == 0 {
            proof {
                assert(self.spec_pending_task() =~= old(self).spec_pending_task().remove(key));
            }
        } else {
            self.pending_task.insert(key, inner);
            proof {
                assert(self.spec_pending_task() =~= old(self).spec_pending_task().insert(key, m.remove(s)));
            }
        }
        Some((s, item))
    }

    /// A check of `key`'s item finished. A valid certificate completes its
    /// key, unless the key went stale meanwhile; otherwise the next sender's
    /// item waiting for the key, if any, is submitted anew. An invalid one is
    /// counted.
    pub fn task_finished(&mut self, key: u64, outcome: CheckOutcome, ready: &BTreeSet<u64>) -> (r: Finished<C>)
        ensures
            final(self).spec_lower_bound() == old(self).spec_lower_bound(),
            final(self).spec_invalid() == if outcome is Invalid {
                if old(self).spec_invalid() < u64::MAX { (old(self).spec_invalid() + 1) as u64 } else { u64::MAX }
            } else {
                old(self).spec_invalid()
            },
            outcome is Valid && !stale(old(self).spec_lower_bound(), key) ==> r is Accepted
                && final(self).spec_completed() == old(self).spec_completed().insert(key)
                && final(self).spec_pending_task() == old(self).spec_pending_task().remove(key)
                && final(self).spec_pending_membership() == old(self).spec_pending_membership().remove(key)
                && final(self).spec_running() == old(self).spec_running().remove(key),
            outcome is Valid && stale(old(self).spec_lower_bound(), key) ==> r is Idle
                && final(self).spec_completed() == old(self).spec_completed()
                && final(self).spec_running() == old(self).spec_running().remove(key),
            !(outcome is Valid) && (stale(old(self).spec_lower_bound(), key)
                || !old(self).spec_pending_task().contains_key(key) || old(self).spec_pending_task()[key].len() == 0)
                ==> r is Idle && final(self).spec_running() == old(self).spec_running().remove(key)
                && final(self).spec_pending_task() == old(self).spec_pending_task(),
            !(outcome is Valid) && !stale(old(self).spec_lower_bound(), key) && old(self).spec_pending_task().contains_key(key)
                && old(self).spec_pending_task()[key].len() > 0 ==> r is Next,
    {
        self.running.remove(&key);
        match outcome {
            CheckOutcome::Valid => {
                if self.is_stale(key) {
                    return Finished::Idle;
                }
                self.completed.insert(key);
                self.pending_task.remove(&key);
                self.pending_membership.remove(&key);
                proof {
                    assert(self.spec_pending_task() =~= old(self).spec_pending_task().remove(key));
                    assert(self.spec_pending_membership() =~= old(self).spec_pending_membership().remove(key));
                }
                return Finished::Accepted;
            },
            CheckOutcome::Invalid => {
                self.invalid_certs = self.invalid_certs.saturating_add(1);
            },
            CheckOutcome::Failed => {},
        }
        if self.is_stale(key) {
            return Finished::Idle;
        }
        match self.next_pending_sender(key) {
            None => Finished::Idle,
            Some((sender, (epoch, cert))) => Finished::Next(self.verify(sender, Some(key), Some(epoch), cert, ready)),
        }
    }

    /// Submit anew every item that waited for its committee; `ready` holds
    /// the epochs whose committee is now known. The items are taken in
    /// increasing order of key and, within a key, of sender, each as
    /// [`CertVerifier::verify`] takes it. Returns the epochs still missing,
    /// and the checks started, each in the order of the items.
    pub fn retry_pending(&mut self, ready: &BTreeSet<u64>) -> (r: (Vec<u64>, Vec<Submission<C>>))
        ensures
            final(self).spec_completed() == old(self).spec_completed(),
            final(self).spec_lower_bound() == old(self).spec_lower_bound(),
            final(self).spec_invalid() == old(self).spec_invalid(),
            retried(*old(self), *final(self), ready@, r.0@, r.1@),
    {
        let mut waiting: BTreeMap<u64, BTreeMap<u64, (u64, C)>> = BTreeMap::new();
        std::mem::swap(&mut waiting, &mut self.pending_membership);
        let ghost pm = old(self).spec_pending_membership();
        let ghost s0 = *self;
        proof {
            assert(nested_view(waiting) == pm);
            assert(nested_view(self.pending_membership) =~= Map::<u64, Map<u64, (u64, C)>>::empty());
        }
        let ghost mut states: Seq<CertVerifier<C>> = seq![*self];
        let ghost mut items: Seq<(u64, u64, (u64, C))> = Seq::empty();
        let ghost mut results: Seq<Submission<C>> = Seq::empty();
        let mut missing: Vec<u64> = Vec::new();
        let mut submitted: Vec<Submission<C>> = Vec::new();
        let keys = crate::collections::sorted_keys(&waiting);
        proof {
            assert forall|t: int| 0 <= t < keys@.len() implies #[trigger] waiting@.contains_key(keys@[t])
                && waiting@[keys@[t]]@ == pm[keys@[t]] by {
                assert(keys@.contains(keys@[t]));
            }
        }
        let mut i: usize = 0;
        while i < keys.len()
            invariant
                0 <= i <= keys.len(),
                self.completed@ == old(self).completed@,
                self.lower_bound == old(self).lower_bound,
                self.invalid_certs == old(self).invalid_certs,
                forall|a: int, b: int| 0 <= a < b < keys@.len() ==> keys@[a] < keys@[b],
                forall|k: u64| #[trigger] keys@.contains(k) <==> pm.contains_key(k),
                forall|t: int| i <= t < keys@.len() ==> #[trigger] waiting@.contains_key(keys@[t])
                    && waiting@[keys@[t]]@ == pm[keys@[t]],
                states.len() == items.len() + 1,
                states[0] == s0,
                states.last() == *self,
                resubmitted(states, items, results, ready@),
                submitted@ == started(results),
                missing@ == awaited(results),
                forall|a: int, b: int| #![trigger items[a], items[b]] 0 <= a < b < items.len()
                    ==> pair_lt((items[a].0, items[a].1), (items[b].0, items[b].1)),
                forall|a: int| 0 <= a < items.len() ==> holds(pm, #[trigger] items[a].0, items[a].1)
                    && pm[items[a].0][items[a].1] == items[a].2,
                forall|a: int| 0 <= a < items.len() ==> exists|t: int| 0 <= t < i && keys@[t] == #[trigger] items[a].0,
                forall|k: u64, s: u64| #[trigger] holds(pm, k, s) && (exists|t: int| 0 <= t < i && keys@[t] == k)
                    ==> exists|a: int| 0 <= a < items.len() && items[a].0 == k && items[a].1 == s,
            decreases keys.len() - i,
        {
            let key = keys[i];
            proof { assert(keys@.contains(key)); }
            let ghost w0 = waiting@;
            let senders0 = match waiting.remove(&key) {
                Some(m) => m,
                None => BTreeMap::new(),
            };
            let mut senders = senders0;
            let sender_keys = crate::collections::sorted_keys(&senders);
            proof {
                assert(senders@ == pm[key]);
                assert forall|t: int| 0 <= t < sender_keys@.len() implies #[trigger] senders@.contains_key(sender_keys@[t])
                    && senders@[sender_keys@[t]] == pm[key][sender_keys@[t]] by {
                    assert(sender_keys@.contains(sender_keys@[t]));
                }
                assert forall|t: int| i < t < keys@.len() implies #[trigger] waiting@.contains_key(keys@[t])
                    && waiting@[keys@[t]]@ == pm[keys@[t]] by {
                    assert(keys@[i as int] < keys@[t]);
                    assert(w0.contains_key(keys@[t]));
                }
            }
            let mut j: usize = 0;
            while j < sender_keys.len()
                invariant
                    0 <= i < keys.len(),
                    key == keys@[i as int],
                    self.completed@ == old(self).completed@,
                    self.lower_bound == old(self).lower_bound,
                    self.invalid_certs == old(self).invalid_certs,
                    0 <= j <= sender_keys.len(),
                    forall|a: int, b: int| 0 <= a < b < keys@.len() ==> keys@[a] < keys@[b],
                    forall|a: int, b: int| 0 <= a < b < sender_keys@.len() ==> sender_keys@[a] < sender_keys@[b],
                    forall|s: u64| #[trigger] sender_keys@.contains(s) <==> pm[key].contains_key(s),
                    pm.contains_key(key),
                    forall|t: int| j <= t < sender_keys@.len() ==> #[trigger] senders@.contains_key(sender_keys@[t])
                        && senders@[sender_keys@[t]] == pm[key][sender_keys@[t]],
                    forall|t: int| i < t < keys@.len() ==> #[trigger] waiting@.contains_key(keys@[t])
                        && waiting@[keys@[t]]@ == pm[keys@[t]],
                    states.len() == items.len() + 1,
                    states[0] == s0,
                    states.last() == *self,
                    resubmitted(states, items, results, ready@),
                    submitted@ == started(results),
                    missing@ == awaited(results),
                    forall|a: int, b: int| #![trigger items[a], items[b]] 0 <= a < b < items.len()
                        ==> pair_lt((items[a].0, items[a].1), (items[b].0, items[b].1)),
                    forall|a: int| 0 <= a < items.len() ==> holds(pm, #[trigger] items[a].0, items[a].1)
                        && pm[items[a].0][items[a].1] == items[a].2,
                    forall|a: int| 0 <= a < items.len() ==> (exists|t: int| 0 <= t < i && keys@[t] == #[trigger] items[a].0)
                        || (items[a].0 == key && exists|t: int| 0 <= t < j && sender_keys@[t] == items[a].1),
                    forall|k: u64, s: u64| #[trigger] holds(pm, k, s) && (exists|t: int| 0 <= t < i && keys@[t] == k)
                        ==> exists|a: int| 0 <= a < items.len() && items[a].0 == k && items[a].1 == s,
                    forall|s: u64| #[trigger] pm[key].contains_key(s) && (exists|t: int| 0 <= t < j && sender_keys@[t] == s)
                        ==> exists|a: int| 0 <= a < items.len() && items[a].0 == key && items[a].1 == s,
                decreases sender_keys.len() - j,
            {
                let sender = sender_keys[j];
                let ghost s_before = senders@;
                match senders.remove(&sender) {
                    Some((epoch, cert)) => {
                        let ghost item = (key, sender, (epoch, cert));
                        let ghost prev = items;
                        let ghost prev_s = states;
                        let ghost prev_r = results;
                        let outcome = self.verify(sender, Some(key), Some(epoch), cert, ready);
                        proof {
                            states = prev_s.push(*self);
                            items = prev.push(item);
                            results = prev_r.push(outcome);
                            lemma_resubmitted_push(prev_s, prev, prev_r, ready@, *self, item, outcome);
                            assert(results.drop_last() =~= prev_r);
                            assert(results.last() == outcome);
                            assert forall|t: int| j + 1 <= t < sender_keys@.len() implies #[trigger] senders@.contains_key(sender_keys@[t])
                                && senders@[sender_keys@[t]] == pm[key][sender_keys@[t]] by {
                                assert(sender_keys@[j as int] < sender_keys@[t]);
                                assert(s_before.contains_key(sender_keys@[t]));
                            }
                            assert forall|a: int, b: int| #![trigger items[a], items[b]] 0 <= a < b < items.len()
                                implies pair_lt((items[a].0, items[a].1), (items[b].0, items[b].1)) by {
                                if b == items.len() - 1 && a < prev.len() {
                                    assert(prev[a] == items[a]);
                                    if exists|t: int| 0 <= t < i && keys@[t] == prev[a].0 {
                                        let t = choose|t: int| 0 <= t < i && keys@[t] == prev[a].0;
                                        assert(keys@[t] < keys@[i as int]);
                                    } else {
                                        let t = choose|t: int| 0 <= t < j && sender_keys@[t] == prev[a].1;
                                        assert(sender_keys@[t] < sender_keys@[j as int]);
                                    }
                                } else {
                                    assert(prev[a] == items[a] && prev[b] == items[b]);
                                }
                            }
                            assert forall|a: int| 0 <= a < items.len() implies (exists|t: int| 0 <= t < i && keys@[t] == #[trigger] items[a].0)
                                || (items[a].0 == key && exists|t: int| 0 <= t < j + 1 && sender_keys@[t] == items[a].1) by {
                                if a < prev.len() {
                                    assert(prev[a] == items[a]);
                                } else {
                                    assert(sender_keys@[j as int] == items[a].1);
                                }
                            }
                            assert forall|a: int| 0 <= a < items.len() implies holds(pm, #[trigger] items[a].0, items[a].1)
                                && pm[items[a].0][items[a].1] == items[a].2 by {
                                if a < prev.len() {
                                    assert(prev[a] == items[a]);
                                } else {
                                    assert(sender_keys@.contains(sender));
                                }
                            }
                            assert forall|k: u64, s: u64| #[trigger] holds(pm, k, s) && (exists|t: int| 0 <= t < i && keys@[t] == k)
                                implies exists|a: int| 0 <= a < items.len() && items[a].0 == k && items[a].1 == s by {
                                let a = choose|a: int| 0 <= a < prev.len() && prev[a].0 == k && prev[a].1 == s;
                                assert(items[a] == prev[a]);
                            }
                            assert forall|s: u64| #[trigger] pm[key].contains_key(s) && (exists|t: int| 0 <= t < j + 1 && sender_keys@[t] == s)
                                implies exists|a: int| 0 <= a < items.len() && items[a].0 == key && items[a].1 == s by {
                                if s == sender {
                                    assert(items[items.len() - 1] == item);
                                } else {
                                    let t = choose|t: int| 0 <= t < j + 1 && sender_keys@[t] == s;
                                    assert(t < j);
                                    let a = choose|a: int| 0 <= a < prev.len() && prev[a].0 == key && prev[a].1 == s;
                                    assert(items[a] == prev[a]);
                                }
                            }
                        }
                        match outcome {
                            Submission::AwaitingMembership(e) => missing.push(e),
                            Submission::Verify { .. } => submitted.push(outcome),
                            _ => {},
                        }
                    },
                    None => {},
                }
                j = j + 1;
            }
            proof {
                assert forall|k: u64, s: u64| #[trigger] holds(pm, k, s) && (exists|t: int| 0 <= t < i + 1 && keys@[t] == k)
                    implies exists|a: int| 0 <= a < items.len() && items[a].0 == k && items[a].1 == s by {
                    if k == key {
                        assert(sender_keys@.contains(s));
                        let t = choose|t: int| 0 <= t < sender_keys@.len() && sender_keys@[t] == s;
                        assert(pm[key].contains_key(s) && (exists|t: int| 0 <= t < j && sender_keys@[t] == s));
                    } else {
                        let t = choose|t: int| 0 <= t < i + 1 && keys@[t] == k;
                        assert(t < i);
                    }
                }
                assert forall|a: int| 0 <= a < items.len() implies exists|t: int| 0 <= t < i + 1 && keys@[t] == #[trigger] items[a].0 by {
                    if exists|t: int| 0 <= t < i && keys@[t] == items[a].0 {
                        let t = choose|t: int| 0 <= t < i && keys@[t] == items[a].0;
                        assert(0 <= t < i + 1 && keys@[t] == items[a].0);
                    } else {
                        assert(keys@[i as int] == items[a].0);
                    }
                }
            }
            i = i + 1;
        }
        proof {
            assert forall|k: u64, s: u64| #[trigger] holds(pm, k, s) implies exists|a: int| 0 <= a < items.len() && items[a].0 == k && items[a].1 == s by {
                assert(keys@.contains(k));
                let t = choose|t: int| 0 <= t < keys@.len() && keys@[t] == k;
                assert(holds(pm, k, s) && (exists|t: int| 0 <= t < i && keys@[t] == k));
            }
            assert(lists_in_order(pm, items));
            assert(resubmitted(states, items, results, ready@));
        }
        (missing, submitted)
    }

    /// Forget everything below `key`, and check nothing below it again.
    pub fn gc(&mut self, key: u64)
        ensures
            final(self).spec_completed() == old(self).spec_completed().filter(|k: u64| k >= key),
            final(self).spec_running() == old(self).spec_running().filter(|k: u64| k >= key),
            final(self).spec_pending_task() == old(self).spec_pending_task().restrict(old(self).spec_pending_task().dom().filter(|k: u64| k >= key)),
            final(self).spec_pending_membership() == old(self).spec_pending_membership().restrict(old(self).spec_pending_membership().dom().filter(|k: u64| k >= key)),
            final(self).spec_lower_bound() == Some(key),
            final(self).spec_invalid() == old(self).spec_invalid(),
    {
        crate::collections::set_retain_from(&mut self.completed, key);
        crate::collections::set_retain_from(&mut self.running, key);
        crate::collections::map_retain_from(&mut self.pending_task, key);
        crate::collections::map_retain_from(&mut self.pending_membership, key);
        self.lower_bound = Some(key);
        proof {
            assert(self.spec_pending_task() =~= old(self).spec_pending_task().restrict(old(self).spec_pending_task().dom().filter(|k: u64| k >= key)));
            assert(self.spec_pending_membership() =~= old(self).spec_pending_membership().restrict(old(self).spec_pending_membership().dom().filter(|k: u64| k >= key)));
        }
    }
}

/// The keys of `m`.
fn keys_of<V>(m: &BTreeMap<u64, V>) -> (r: Vec<u64>)
    ensures
        forall|k: u64| r@.contains(k) <==> m@.contains_key(k),
{
    let mut out: Vec<u64> = Vec::new();
    let ghost all = vstd::std_specs::btree::spec_keys_iter(m).remaining();
    for k in it: m.keys()
        invariant
            it.seq() == all,
            all.unref().to_set() == m@.dom(),
            forall|x: u64| out@.contains(x) <==> exists|j: int| 0 <= j < it.index() && *all[j] == x,
    {
        let ghost idx = it.index() as int;
        assert(*k == *all[idx]);
        let ghost old_out = out@;
        out.push(*k);
        proof {
            assert forall|x: u64| out@.contains(x) <==> exists|j: int| 0 <= j < idx + 1 && *all[j] == x by {
                if x == *k {
                    assert(out@[out@.len() - 1] == x);
                } else {
                    if out@.contains(x) {
                        let y = choose|y: int| 0 <= y < out@.len() && out@[y] == x;
                        assert(old_out[y] == x);
                    }
                    if exists|j: int| 0 <= j < idx + 1 && *all[j] == x {
                        let j = choose|j: int| 0 <= j < idx + 1 && *all[j] == x;
                        assert(j < idx);
                        let y = choose|y: int| 0 <= y < old_out.len() && old_out[y] == x;
                        assert(out@[y] == x);
                    }
                }
            }
        }
    }
    proof {
        assert forall|x: u64| out@.contains(x) <==> m@.contains_key(x) by {
            if m@.contains_key(x) {
                assert(all.unref().to_set().contains(x));
                let j = choose|j: int| 0 <= j < all.unref().len() && all.unref()[j] == x;
                assert(*all[j] == x);
            }
            if out@.contains(x) {
                let j = choose|j: int| 0 <= j < all.len() && *all[j] == x;
                assert(all.unref()[j] == x);
                assert(all.unref().to_set().contains(x));
            }
        }
    }
    out
}

/// How a check ended.
#[derive(Clone, Copy, Debug)]
pub enum CheckOutcome {
    Valid,
    Invalid,
    /// The check itself failed, which says nothing of the item.
    Failed,
}

/// The least key of a non-empty map.
pub open spec fn least_key<V>(m: Map<u64, V>) -> u64 {
    choose|k: u64| m.contains_key(k) && forall|j: u64| m.contains_key(j) ==> k <= j
}

/// What a completed certificate retires: its view, or its view and epoch.
#[derive(Clone, Copy, Debug)]
pub enum Completion {
    PerView,
    PerViewAndEpoch,
}

/// What a completed item of `view` in `epoch` is remembered by.
pub open spec fn spec_completion_key(completion: Completion, view: u64, epoch: u64) -> (u64, u64) {
    match completion {
        Completion::PerView => (view, 0),
        Completion::PerViewAndEpoch => (view, epoch),
    }
}

/// Whether an item of `view` in `epoch` survives the completion of `done`
/// in `done_epoch`.
pub open spec fn survives(completion: Completion, item_view: u64, item_epoch: u64, done: u64, done_epoch: u64) -> bool {
    item_view != done || (completion is PerViewAndEpoch && item_epoch != done_epoch)
}

/// Checks certificates keyed by their sender rather than by view, which
/// helps a lagging node jump to the frontier: while a sender's certificate
/// is checked, its further ones are dropped, which bounds each peer to one
/// check at a time.
pub struct CertBySenderVerifier<C> {
    /// Senders with a check in flight.
    running: BTreeSet<u64>,
    /// Per sender, its item waiting for its committee: view, epoch, item.
    pending: BTreeMap<u64, (u64, u64, C)>,
    completed: BTreeSet<(u64, u64)>,
    completion: Completion,
    lower_bound: u64,
    invalid_certs: u64,
}

/// What submitting `sender`'s item `cert` of `view` in `epoch` does to a
/// verifier `a`, leaving `b` and answering `r`, when `ready` holds the
/// epochs whose committee is known: as [`CertBySenderVerifier::verify`] says.
pub open spec fn submitted_by_sender<C>(
    a: CertBySenderVerifier<C>,
    b: CertBySenderVerifier<C>,
    sender: u64,
    view: u64,
    epoch: Option<u64>,
    cert: C,
    ready: Set<u64>,
    r: Submission<C>,
) -> bool {
    let dropped = view < a.spec_lower_bound() || a.spec_running().contains(sender) || epoch is None
        || a.spec_completed().contains(spec_completion_key(a.spec_completion(), view, epoch.unwrap()));
    &&& b.spec_completed() == a.spec_completed()
    &&& b.spec_completion() == a.spec_completion()
    &&& b.spec_lower_bound() == a.spec_lower_bound()
    &&& b.spec_invalid() == a.spec_invalid()
    &&& dropped ==> r is Dropped && b.spec_running() == a.spec_running() && b.spec_pending() == a.spec_pending()
    &&& !dropped && !ready.contains(epoch.unwrap()) ==> r == Submission::<C>::AwaitingMembership(epoch.unwrap())
        && b.spec_pending() == a.spec_pending().insert(sender, (view, epoch.unwrap(), cert))
        && b.spec_running() == a.spec_running()
    &&& !dropped && ready.contains(epoch.unwrap()) ==> r == (Submission::Verify { key: sender, epoch: epoch.unwrap(), cert })
        && b.spec_running() == a.spec_running().insert(sender)
        && b.spec_pending() == a.spec_pending()
}

/// One check at a time per sender: while a sender's item is checked, its
/// further items are dropped.
pub proof fn law_one_check_per_sender<C>(
    a: CertBySenderVerifier<C>, b: CertBySenderVerifier<C>, c: CertBySenderVerifier<C>,
    sender: u64, v1: u64, e1: Option<u64>, c1: C, ready1: Set<u64>, r1: Submission<C>,
    v2: u64, e2: Option<u64>, c2: C, ready2: Set<u64>, r2: Submission<C>,
)
    requires
        submitted_by_sender(a, b, sender, v1, e1, c1, ready1, r1),
        r1 is Verify,
        submitted_by_sender(b, c, sender, v2, e2, c2, ready2, r2),
    ensures
        r2 is Dropped,
{
}

impl<C> CertBySenderVerifier<C> {
    /// Nothing checked, running, waiting or refused yet, retiring by
    /// `completion`.
    pub open spec fn spec_fresh(&self, completion: Completion) -> bool {
        &&& self.spec_running() == Set::<u64>::empty()
        &&& self.spec_pending() == Map::<u64, (u64, u64, C)>::empty()
        &&& self.spec_completed() == Set::<(u64, u64)>::empty()
        &&& self.spec_completion() == completion
        &&& self.spec_lower_bound() == 0
        &&& self.spec_invalid() == 0
    }

    pub closed spec fn spec_running(&self) -> Set<u64> {
        self.running@
    }

    pub closed spec fn spec_pending(&self) -> Map<u64, (u64, u64, C)> {
        self.pending@
    }

    pub closed spec fn spec_completed(&self) -> Set<(u64, u64)> {
        self.completed@
    }

    pub closed spec fn spec_completion(&self) -> Completion {
        self.completion
    }

    pub closed spec fn spec_lower_bound(&self) -> u64 {
        self.lower_bound
    }

    pub closed spec fn spec_invalid(&self) -> u64 {
        self.invalid_certs
    }

    pub fn new(completion: Completion) -> (r: Self)
        ensures
            r.spec_running() == Set::<u64>::empty(),
            r.spec_pending() == Map::<u64, (u64, u64, C)>::empty(),
            r.spec_completed() == Set::<(u64, u64)>::empty(),
            r.spec_completion() == completion,
            r.spec_lower_bound() == 0,
            r.spec_invalid() == 0,
    {
        CertBySenderVerifier {
            running: BTreeSet::new(),
            pending: BTreeMap::new(),
            completed: BTreeSet::new(),
            completion,
            lower_bound: 0,
            invalid_certs: 0,
        }
    }

    /// What a completed item of `view` in `epoch` is remembered by.
    pub fn completion_key(&self, view: u64, epoch: u64) -> (r: (u64, u64))
        ensures
            r == spec_completion_key(self.spec_completion(), view, epoch),
    {
        match self.completion {
            Completion::PerView => (view, 0),
            Completion::PerViewAndEpoch => (view, epoch),
        }
    }

    /// Submit `sender`'s item of `view` in `epoch`; `ready` holds the epochs
    /// whose committee is known. Dropped while the sender's previous item is
    /// checked, when stale, without an epoch, or when its view (and epoch)
    /// is done; an item waiting for its committee replaces the sender's
    /// earlier waiting one.
    pub fn verify(&mut self, sender: u64, view: u64, epoch: Option<u64>, cert: C, ready: &BTreeSet<u64>) -> (r: Submission<C>)
        ensures
            submitted_by_sender(*old(self), *final(self), sender, view, epoch, cert, ready@, r),
    {
        if view < self.lower_bound || self.running.contains(&sender) {
            return Submission::Dropped;
        }
        let e = match epoch {
            None => return Submission::Dropped,
            Some(e) => e,
        };
        if self.completed.contains(&self.completion_key(view, e)) {
            return Submission::Dropped;
        }
        if !ready.contains(&e) {
            self.pending.insert(sender, (view, e, cert));
            return Submission::AwaitingMembership(e);
        }
        self.running.insert(sender);
        Submission::Verify { key: sender, epoch: e, cert }
    }

    /// Note that `view` was completed in `epoch` by other means, such as
    /// from votes: the items waiting on it are dropped.
    pub fn mark_completed(&mut self, view: u64, epoch: u64)
        ensures
            final(self).spec_completion() == old(self).spec_completion(),
            final(self).spec_lower_bound() == old(self).spec_lower_bound(),
            final(self).spec_running() == old(self).spec_running(),
            final(self).spec_invalid() == old(self).spec_invalid(),
            view < old(self).spec_lower_bound() ==> final(self).spec_completed() == old(self).spec_completed()
                && final(self).spec_pending() == old(self).spec_pending(),
            view >= old(self).spec_lower_bound() ==> final(self).spec_completed() == old(self).spec_completed().insert(
                spec_completion_key(old(self).spec_completion(), view, epoch),
            ) && final(self).spec_pending() == old(self).spec_pending().restrict(
                old(self).spec_pending().dom().filter(
                    |s: u64| survives(old(self).spec_completion(), old(self).spec_pending()[s].0, old(self).spec_pending()[s].1, view, epoch),
                ),
            ),
    {
        if view < self.lower_bound {
            return;
        }
        let key = self.completion_key(view, epoch);
        self.completed.insert(key);
        let and_epoch = match self.completion {
            Completion::PerView => false,
            Completion::PerViewAndEpoch => true,
        };
        let ghost orig = self.pending@;
        let senders = keys_of(&self.pending);
        let mut i: usize = 0;
        while i < senders.len()
            invariant
                0 <= i <= senders.len(),
                forall|k: u64| senders@.contains(k) ==> orig.contains_key(k),
                self.completion == old(self).completion,
                self.lower_bound == old(self).lower_bound,
                self.running@ == old(self).running@,
                self.invalid_certs == old(self).invalid_certs,
                self.completed@ == old(self).completed@.insert(spec_completion_key(old(self).completion, view, epoch)),
                forall|k: u64| orig.contains_key(k) ==> senders@.contains(k),
                and_epoch == (self.completion is PerViewAndEpoch),
                self.pending@.dom().subset_of(orig.dom()),
                forall|k: u64| #[trigger] self.pending@.contains_key(k) ==> self.pending@[k] == orig[k]
                    && survives_or_later(senders@, i as int, k, self.completion, orig[k].0, orig[k].1, view, epoch),
                forall|k: u64| orig.contains_key(k) && survives(self.completion, orig[k].0, orig[k].1, view, epoch)
                    ==> #[trigger] self.pending@.contains_key(k),
                forall|k: u64| orig.contains_key(k) && !senders@.subrange(0, i as int).contains(k) ==> #[trigger] self.pending@.contains_key(k),
            decreases senders.len() - i,
        {
            let s = senders[i];
            let drop = match self.pending.get(&s) {
                Some(item) => item.0 == view && (!and_epoch || item.1 == epoch),
                None => false,
            };
            if drop {
                self.pending.remove(&s);
            }
            proof {
                assert(senders@.subrange(0, i as int + 1) =~= senders@.subrange(0, i as int).push(s));
            }
            i = i + 1;
        }
        proof {
            assert(self.pending@ =~= orig.restrict(orig.dom().filter(
                |k: u64| survives(old(self).completion, orig[k].0, orig[k].1, view, epoch),
            ))) by {
                assert forall|k: u64| #[trigger] self.pending@.contains_key(k) implies survives(self.completion, orig[k].0, orig[k].1, view, epoch) by {
                    if !survives(self.completion, orig[k].0, orig[k].1, view, epoch) {
                        assert(senders@.subrange(0, senders.len() as int) =~= senders@);
                    }
                }
            }
        }
    }

    /// A check of `sender`'s item finished. A valid certificate of `view` in
    /// `epoch` is handed on if its view is not stale and it completes a key
    /// not completed before; an invalid one is counted.
    pub fn task_finished(&mut self, sender: u64, outcome: CheckOutcome, view: u64, epoch: u64) -> (r: bool)
        ensures
            final(self).spec_running() == old(self).spec_running().remove(sender),
            final(self).spec_pending() == old(self).spec_pending(),
            final(self).spec_completion() == old(self).spec_completion(),
            final(self).spec_lower_bound() == old(self).spec_lower_bound(),
            r == (outcome is Valid && view >= old(self).spec_lower_bound()
                && !old(self).spec_completed().contains(spec_completion_key(old(self).spec_completion(), view, epoch))),
            final(self).spec_completed() == if outcome is Valid && view >= old(self).spec_lower_bound() {
                old(self).spec_completed().insert(spec_completion_key(old(self).spec_completion(), view, epoch))
            } else {
                old(self).spec_completed()
            },
            final(self).spec_invalid() == if outcome is Invalid {
                if old(self).spec_invalid() < u64::MAX { (old(self).spec_invalid() + 1) as u64 } else { u64::MAX }
            } else {
                old(self).spec_invalid()
            },
    {
        self.running.remove(&sender);
        match outcome {
            CheckOutcome::Valid => {
                let key = self.completion_key(view, epoch);
                view >= self.lower_bound && self.completed.insert(key)
            },
            CheckOutcome::Invalid => {
                self.invalid_certs = self.invalid_certs.saturating_add(1);
                false
            },
            CheckOutcome::Failed => false,
        }
    }

    /// Forget everything before `view`, and check nothing before it again.
    pub fn gc(&mut self, view: u64)
        ensures
            final(self).spec_completed() == old(self).spec_completed().filter(|k: (u64, u64)| k.0 >= view),
            final(self).spec_pending() == old(self).spec_pending().restrict(
                old(self).spec_pending().dom().filter(|s: u64| old(self).spec_pending()[s].0 >= view),
            ),
            final(self).spec_lower_bound() == view,
            final(self).spec_running() == old(self).spec_running(),
            final(self).spec_completion() == old(self).spec_completion(),
            final(self).spec_invalid() == old(self).spec_invalid(),
    {
        crate::collections::pair_set_retain_from(&mut self.completed, view);
        let ghost orig = self.pending@;
        let senders = keys_of(&self.pending);
        let mut i: usize = 0;
        while i < senders.len()
            invariant
                0 <= i <= senders.len(),
                forall|k: u64| senders@.contains(k) ==> orig.contains_key(k),
                self.pending@.dom().subset_of(orig.dom()),
                forall|k: u64| #[trigger] self.pending@.contains_key(k) ==> self.pending@[k] == orig[k]
                    && (orig[k].0 >= view || !senders@.subrange(0, i as int).contains(k)),
                forall|k: u64| orig.contains_key(k) && orig[k].0 >= view ==> #[trigger] self.pending@.contains_key(k),
                forall|k: u64| orig.contains_key(k) && !senders@.subrange(0, i as int).contains(k) ==> #[trigger] self.pending@.contains_key(k),
                self.completed@ == old(self).completed@.filter(|k: (u64, u64)| k.0 >= view),
                self.completion == old(self).completion,
                self.lower_bound == old(self).lower_bound,
                self.running@ == old(self).running@,
                self.invalid_certs == old(self).invalid_certs,
                forall|k: u64| orig.contains_key(k) ==> senders@.contains(k),
            decreases senders.len() - i,
        {
            let s = senders[i];
            let drop = match self.pending.get(&s) {
                Some(item) => item.0 < view,
                None => false,
            };
            if drop {
                self.pending.remove(&s);
            }
            proof {
                assert(senders@.subrange(0, i as int + 1) =~= senders@.subrange(0, i as int).push(s));
            }
            i = i + 1;
        }
        self.lower_bound = view;
        proof {
            assert(senders@.subrange(0, senders.len() as int) =~= senders@);
            assert(self.pending@ =~= orig.restrict(orig.dom().filter(|s: u64| orig[s].0 >= view)));
        }
    }

    pub fn num_invalid_certs(&self) -> (r: u64)
        ensures
            r == self.spec_invalid(),
    {
        self.invalid_certs
    }

    /// Submit anew every item that waited for its committee; `ready` holds
    /// the epochs whose committee is now known. The items are taken in
    /// increasing order of sender, each as [`CertBySenderVerifier::verify`]
    /// takes it. Returns the epochs still missing, and the checks started,
    /// each in the order of the items.
    pub fn retry_pending(&mut self, ready: &BTreeSet<u64>) -> (r: (Vec<u64>, Vec<Submission<C>>))
        ensures
            retried_by_sender(*old(self), *final(self), ready@, r.0@, r.1@),
    {
        let mut waiting: BTreeMap<u64, (u64, u64, C)> = BTreeMap::new();
        std::mem::swap(&mut waiting, &mut self.pending);
        let ghost pm = old(self).spec_pending();
        let ghost s0 = *self;
        proof {
            assert(self.pending@ =~= Map::<u64, (u64, u64, C)>::empty());
        }
        let ghost mut states: Seq<CertBySenderVerifier<C>> = seq![*self];
        let ghost mut items: Seq<(u64, (u64, u64, C))> = Seq::empty();
        let ghost mut results: Seq<Submission<C>> = Seq::empty();
        let mut missing: Vec<u64> = Vec::new();
        let mut submitted: Vec<Submission<C>> = Vec::new();
        let senders = crate::collections::sorted_keys(&waiting);
        proof {
            assert forall|t: int| 0 <= t < senders@.len() implies #[trigger] waiting@.contains_key(senders@[t])
                && waiting@[senders@[t]] == pm[senders@[t]] by {
                assert(senders@.contains(senders@[t]));
            }
        }
        let mut i: usize = 0;
        while i < senders.len()
            invariant
                0 <= i <= senders.len(),
                forall|a: int, b: int| 0 <= a < b < senders@.len() ==> senders@[a] < senders@[b],
                forall|k: u64| #[trigger] senders@.contains(k) <==> pm.contains_key(k),
                forall|t: int| i <= t < senders@.len() ==> #[trigger] waiting@.contains_key(senders@[t])
                    && waiting@[senders@[t]] == pm[senders@[t]],
                states.len() == items.len() + 1,
                states[0] == s0,
                states.last() == *self,
                resubmitted_by_sender(states, items, results, ready@),
                submitted@ == started(results),
                missing@ == awaited(results),
                items.len() == i,
                forall|a: int| 0 <= a < items.len() ==> #[trigger] items[a] == (senders@[a], pm[senders@[a]]),
            decreases senders.len() - i,
        {
            let sender = senders[i];
            let ghost w0 = waiting@;
            match waiting.remove(&sender) {
                Some((view, epoch, cert)) => {
                    let ghost item = (sender, (view, epoch, cert));
                    let ghost prev = items;
                    let ghost prev_s = states;
                    let ghost prev_r = results;
                    let outcome = self.verify(sender, view, Some(epoch), cert, ready);
                    proof {
                        states = prev_s.push(*self);
                        items = prev.push(item);
                        results = prev_r.push(outcome);
                        lemma_resubmitted_by_sender_push(prev_s, prev, prev_r, ready@, *self, item, outcome);
                        assert(results.drop_last() =~= prev_r);
                        assert(results.last() == outcome);
                        assert forall|t: int| i + 1 <= t < senders@.len() implies #[trigger] waiting@.contains_key(senders@[t])
                            && waiting@[senders@[t]] == pm[senders@[t]] by {
                            assert(senders@[i as int] < senders@[t]);
                            assert(w0.contains_key(senders@[t]));
                        }
                        assert forall|a: int| 0 <= a < items.len() implies #[trigger] items[a] == (senders@[a], pm[senders@[a]]) by {
                            if a < prev.len() {
                                assert(items[a] == prev[a]);
                            }
                        }
                    }
                    match outcome {
                        Submission::AwaitingMembership(e) => missing.push(e),
                        Submission::Verify { .. } => submitted.push(outcome),
                        _ => {},
                    }
                },
                None => {},
            }
            i = i + 1;
        }
        proof {
            assert forall|a: int, b: int| #![trigger items[a], items[b]] 0 <= a < b < items.len() implies items[a].0 < items[b].0 by {
                assert(items[a] == (senders@[a], pm[senders@[a]]));
                assert(items[b] == (senders@[b], pm[senders@[b]]));
            }
            assert forall|a: int| 0 <= a < items.len() implies pm.contains_key(#[trigger] items[a].0) && pm[items[a].0] == items[a].1 by {
                assert(items[a] == (senders@[a], pm[senders@[a]]));
                assert(senders@.contains(senders@[a]));
            }
            assert forall|k: u64| #[trigger] pm.contains_key(k) implies exists|a: int| 0 <= a < items.len() && items[a].0 == k by {
                assert(senders@.contains(k));
                let t = choose|t: int| 0 <= t < senders@.len() && senders@[t] == k;
                assert(items[t] == (senders@[t], pm[senders@[t]]));
            }
            assert(lists_by_key(pm, items));
            assert(resubmitted_by_sender(states, items, results, ready@));
        }
        (missing, submitted)
    }
}

/// `items` lists every entry of `m` once, as its key and value, in
/// increasing order of key.
pub open spec fn lists_by_key<V>(m: Map<u64, V>, items: Seq<(u64, V)>) -> bool {
    &&& forall|a: int, b: int| #![trigger items[a], items[b]] 0 <= a < b < items.len() ==> items[a].0 < items[b].0
    &&& forall|a: int| 0 <= a < items.len() ==> m.contains_key(#[trigger] items[a].0) && m[items[a].0] == items[a].1
    &&& forall|k: u64| #[trigger] m.contains_key(k) ==> exists|a: int| 0 <= a < items.len() && items[a].0 == k
}

/// Submitting `items` anew, in order, takes a verifier through `states`,
/// answering `results`: each step as [`CertBySenderVerifier::verify`] says,
/// with the item's sender, view, epoch and certificate.
pub open spec fn resubmitted_by_sender<C>(states: Seq<CertBySenderVerifier<C>>, items: Seq<(u64, (u64, u64, C))>, results: Seq<Submission<C>>, ready: Set<u64>) -> bool {
    &&& states.len() == items.len() + 1
    &&& results.len() == items.len()
    &&& forall|a: int| 0 <= a < items.len() ==> submitted_by_sender(
        states[a],
        states[a + 1],
        items[a].0,
        items[a].1.0,
        Some(items[a].1.1),
        items[a].1.2,
        ready,
        #[trigger] results[a],
    )
}

/// One more submission extends a run of them.
proof fn lemma_resubmitted_by_sender_push<C>(states: Seq<CertBySenderVerifier<C>>, items: Seq<(u64, (u64, u64, C))>, results: Seq<Submission<C>>, ready: Set<u64>, next: CertBySenderVerifier<C>, item: (u64, (u64, u64, C)), r: Submission<C>)
    requires
        resubmitted_by_sender(states, items, results, ready),
        submitted_by_sender(states.last(), next, item.0, item.1.0, Some(item.1.1), item.1.2, ready, r),
    ensures
        resubmitted_by_sender(states.push(next), items.push(item), results.push(r), ready),
{
    let s2 = states.push(next);
    let i2 = items.push(item);
    let r2 = results.push(r);
    assert forall|a: int| 0 <= a < i2.len() implies submitted_by_sender(
        s2[a],
        s2[a + 1],
        i2[a].0,
        i2[a].1.0,
        Some(i2[a].1.1),
        i2[a].1.2,
        ready,
        #[trigger] r2[a],
    ) by {
        if a < items.len() {
            assert(r2[a] == results[a]);
            assert(s2[a] == states[a] && s2[a + 1] == states[a + 1] && i2[a] == items[a]);
        } else {
            assert(s2[a] == states.last());
        }
    }
}

/// Whether the item of `k` survives the completion, or has not been looked
/// at yet among the first `i` of `order`.
pub open spec fn survives_or_later(order: Seq<u64>, i: int, k: u64, completion: Completion, item_view: u64, item_epoch: u64, done: u64, done_epoch: u64) -> bool {
    survives(completion, item_view, item_epoch, done, done_epoch) || !order.subrange(0, i).contains(k)
}


/// A node's verifiers of network certificates, one per kind: first and
/// second certificates and epoch-change messages by key, and the two kinds
/// of timeout certificate and view-advancing certificates by sender.
pub struct CertVerifiers<C1, C2, T2, T3, A, E> {
    pub cert1: CertVerifier<C1>,
    pub cert2: CertVerifier<C2>,
    pub timeout: CertBySenderVerifier<T2>,
    pub timeout3: CertBySenderVerifier<T3>,
    pub advance: CertBySenderVerifier<A>,
    pub epoch_change: CertVerifier<E>,
}

/// The checks a retry started, per verifier.
pub struct RetriedChecks<C1, C2, T2, T3, A, E> {
    pub cert1: Vec<Submission<C1>>,
    pub cert2: Vec<Submission<C2>>,
    pub timeout: Vec<Submission<T2>>,
    pub timeout3: Vec<Submission<T3>>,
    pub advance: Vec<Submission<A>>,
    pub epoch_change: Vec<Submission<E>>,
}

/// `a + b`, saturating at `u64::MAX`.
pub open spec fn sat_add(a: u64, b: u64) -> u64 {
    if a + b > u64::MAX {
        u64::MAX
    } else {
        (a + b) as u64
    }
}

impl<C1, C2, T2, T3, A, E> CertVerifiers<C1, C2, T2, T3, A, E> {
    /// Fresh verifiers; a timeout certificate of the first kind retires its
    /// view, one of the second kind or a view-advancing certificate its view
    /// and epoch.
    pub fn new() -> (r: Self)
        ensures
            r.cert1.spec_fresh(),
            r.cert2.spec_fresh(),
            r.timeout.spec_fresh(Completion::PerView),
            r.timeout3.spec_fresh(Completion::PerViewAndEpoch),
            r.advance.spec_fresh(Completion::PerViewAndEpoch),
            r.epoch_change.spec_fresh(),
    {
        CertVerifiers {
            cert1: CertVerifier::new(),
            cert2: CertVerifier::new(),
            timeout: CertBySenderVerifier::new(Completion::PerView),
            timeout3: CertBySenderVerifier::new(Completion::PerViewAndEpoch),
            advance: CertBySenderVerifier::new(Completion::PerViewAndEpoch),
            epoch_change: CertVerifier::new(),
        }
    }

    /// Retry every verifier's items that waited for their committee, in the
    /// order first certificates, second certificates, timeout certificates
    /// of both kinds, view-advancing certificates, epoch changes. Returns
    /// the epochs still missing, in that order, and the checks started.
    pub fn retry_pending(&mut self, ready: &BTreeSet<u64>) -> (r: (Vec<u64>, RetriedChecks<C1, C2, T2, T3, A, E>))
        ensures
            exists|m1: Seq<u64>, m2: Seq<u64>, m3: Seq<u64>, m4: Seq<u64>, m5: Seq<u64>, m6: Seq<u64>|
                #![trigger retried(old(self).cert1, final(self).cert1, ready@, m1, r.1.cert1@),
                    retried(old(self).cert2, final(self).cert2, ready@, m2, r.1.cert2@),
                    retried_by_sender(old(self).timeout, final(self).timeout, ready@, m3, r.1.timeout@),
                    retried_by_sender(old(self).timeout3, final(self).timeout3, ready@, m4, r.1.timeout3@),
                    retried_by_sender(old(self).advance, final(self).advance, ready@, m5, r.1.advance@),
                    retried(old(self).epoch_change, final(self).epoch_change, ready@, m6, r.1.epoch_change@)]
                {
                    &&& retried(old(self).cert1, final(self).cert1, ready@, m1, r.1.cert1@)
                    &&& retried(old(self).cert2, final(self).cert2, ready@, m2, r.1.cert2@)
                    &&& retried_by_sender(old(self).timeout, final(self).timeout, ready@, m3, r.1.timeout@)
                    &&& retried_by_sender(old(self).timeout3, final(self).timeout3, ready@, m4, r.1.timeout3@)
                    &&& retried_by_sender(old(self).advance, final(self).advance, ready@, m5, r.1.advance@)
                    &&& retried(old(self).epoch_change, final(self).epoch_change, ready@, m6, r.1.epoch_change@)
                    &&& r.0@ == m1 + m2 + m3 + m4 + m5 + m6
                },
    {
        let (mut missing, cert1) = self.cert1.retry_pending(ready);
        let ghost m1 = missing@;
        let (mut m, cert2) = self.cert2.retry_pending(ready);
        let ghost m2 = m@;
        missing.append(&mut m);
        let (mut m, timeout) = self.timeout.retry_pending(ready);
        let ghost m3 = m@;
        missing.append(&mut m);
        let (mut m, timeout3) = self.timeout3.retry_pending(ready);
        let ghost m4 = m@;
        missing.append(&mut m);
        let (mut m, advance) = self.advance.retry_pending(ready);
        let ghost m5 = m@;
        missing.append(&mut m);
        let (mut m, epoch_change) = self.epoch_change.retry_pending(ready);
        let ghost m6 = m@;
        missing.append(&mut m);
        let checks = RetriedChecks { cert1, cert2, timeout, timeout3, advance, epoch_change };
        proof {
            // The witnesses: what each verifier's retry reported.
            let r = (missing, checks);
            assert({
                &&& retried(old(self).cert1, self.cert1, ready@, m1, r.1.cert1@)
                &&& retried(old(self).cert2, self.cert2, ready@, m2, r.1.cert2@)
                &&& retried_by_sender(old(self).timeout, self.timeout, ready@, m3, r.1.timeout@)
                &&& retried_by_sender(old(self).timeout3, self.timeout3, ready@, m4, r.1.timeout3@)
                &&& retried_by_sender(old(self).advance, self.advance, ready@, m5, r.1.advance@)
                &&& retried(old(self).epoch_change, self.epoch_change, ready@, m6, r.1.epoch_change@)
                &&& r.0@ == m1 + m2 + m3 + m4 + m5 + m6
            });
        }
        (missing, checks)
    }

    /// Forget everything before `view`, and epoch changes before `epoch`.
    pub fn gc(&mut self, view: u64, epoch: u64)
        ensures
            final(self).cert1.spec_completed() == old(self).cert1.spec_completed().filter(|k: u64| k >= view),
            final(self).cert1.spec_running() == old(self).cert1.spec_running().filter(|k: u64| k >= view),
            final(self).cert1.spec_pending_task() == old(self).cert1.spec_pending_task().restrict(old(self).cert1.spec_pending_task().dom().filter(|k: u64| k >= view)),
            final(self).cert1.spec_pending_membership() == old(self).cert1.spec_pending_membership().restrict(old(self).cert1.spec_pending_membership().dom().filter(|k: u64| k >= view)),
            final(self).cert1.spec_lower_bound() == Some(view),
            final(self).cert1.spec_invalid() == old(self).cert1.spec_invalid(),
            final(self).cert2.spec_completed() == old(self).cert2.spec_completed().filter(|k: u64| k >= view),
            final(self).cert2.spec_running() == old(self).cert2.spec_running().filter(|k: u64| k >= view),
            final(self).cert2.spec_pending_task() == old(self).cert2.spec_pending_task().restrict(old(self).cert2.spec_pending_task().dom().filter(|k: u64| k >= view)),
            final(self).cert2.spec_pending_membership() == old(self).cert2.spec_pending_membership().restrict(old(self).cert2.spec_pending_membership().dom().filter(|k: u64| k >= view)),
            final(self).cert2.spec_lower_bound() == Some(view),
            final(self).cert2.spec_invalid() == old(self).cert2.spec_invalid(),
            collected_by_sender(old(self).timeout, final(self).timeout, view),
            collected_by_sender(old(self).timeout3, final(self).timeout3, view),
            collected_by_sender(old(self).advance, final(self).advance, view),
            final(self).epoch_change.spec_completed() == old(self).epoch_change.spec_completed().filter(|k: u64| k >= epoch),
            final(self).epoch_change.spec_running() == old(self).epoch_change.spec_running().filter(|k: u64| k >= epoch),
            final(self).epoch_change.spec_pending_task() == old(self).epoch_change.spec_pending_task().restrict(old(self).epoch_change.spec_pending_task().dom().filter(|k: u64| k >= epoch)),
            final(self).epoch_change.spec_pending_membership() == old(self).epoch_change.spec_pending_membership().restrict(old(self).epoch_change.spec_pending_membership().dom().filter(|k: u64| k >= epoch)),
            final(self).epoch_change.spec_lower_bound() == Some(epoch),
            final(self).epoch_change.spec_invalid() == old(self).epoch_change.spec_invalid(),
    {
        self.cert1.gc(view);
        self.cert2.gc(view);
        self.timeout.gc(view);
        self.timeout3.gc(view);
        self.advance.gc(view);
        self.epoch_change.gc(epoch);
    }

    /// The items refused by all verifiers together, saturating.
    pub fn num_invalid_certs(&self) -> (r: u64)
        ensures
            r == sat_add(sat_add(sat_add(sat_add(sat_add(self.cert1.spec_invalid(), self.cert2.spec_invalid()),
                self.timeout.spec_invalid()), self.timeout3.spec_invalid()), self.advance.spec_invalid()),
                self.epoch_change.spec_invalid()),
    {
        self.cert1.num_invalid_certs()
            .saturating_add(self.cert2.num_invalid_certs())
            .saturating_add(self.timeout.num_invalid_certs())
            .saturating_add(self.timeout3.num_invalid_certs())
            .saturating_add(self.advance.num_invalid_certs())
            .saturating_add(self.epoch_change.num_invalid_certs())
    }
}

/// What forgetting everything before `view` does to a by-sender verifier,
/// as [`CertBySenderVerifier::gc`] says.
pub open spec fn collected_by_sender<C>(a: CertBySenderVerifier<C>, b: CertBySenderVerifier<C>, view: u64) -> bool {
    &&& b.spec_completed() == a.spec_completed().filter(|k: (u64, u64)| k.0 >= view)
    &&& b.spec_pending() == a.spec_pending().restrict(a.spec_pending().dom().filter(|s: u64| a.spec_pending()[s].0 >= view))
    &&& b.spec_lower_bound() == view
    &&& b.spec_running() == a.spec_running()
    &&& b.spec_completion() == a.spec_completion()
    &&& b.spec_invalid() == a.spec_invalid()
}

} // verus!
