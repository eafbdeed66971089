//! The requesting half of payload recovery: which peer to ask for a
//! payload, and what to make of its answer.
use crate::consensus::Consensus;
use crate::data::VidCommitment;
use crate::membership::Membership;
use rand::seq::IteratorRandom;
use std::collections::{BTreeMap, BTreeSet};
use vstd::prelude::*;
use vstd::std_specs::iter::IteratorSpec;

verus! {

broadcast use vstd::std_specs::btree::group_btree_axioms, vstd::laws_cmp::group_laws_cmp;

/// Whether a draw may start the round over.
#[derive(Clone, Copy, Debug, PartialEq, Eq)]
pub enum Retry {
    /// The periodic retry: once every peer was asked, start over.
    NewRound,
    /// A refusal: only peers this round has not asked.
    SameRound,
}

/// The peers one fetch has involved. `asked` decides who is not drawn again,
/// and a new round forgets it; `pending` is who still owes an answer, and
/// outlives the round.
pub struct Fetch {
    pub asked: BTreeSet<u64>,
    pub pending: BTreeSet<u64>,
}

impl Default for Fetch {
    /// A fetch that has asked no one and waits on no one.
    fn default() -> (r: Self)
        ensures
            r.asked@ == Set::<u64>::empty(),
            r.pending@ == Set::<u64>::empty(),
    {
        Fetch { asked: BTreeSet::new(), pending: BTreeSet::new() }
    }
}

/// A peer's answer to a payload request.
pub enum PayloadResponseBody {
    NotAvailable,
    TooLarge,
    Payload { commitment: u64, data: Vec<u8> },
}

/// What to make of a peer's answer.
pub enum ResponseOutcome {
    /// Nothing: not an answer this node waits for.
    Dropped,
    /// A peer that owed an answer refused: draw another.
    Redraw,
    /// Bytes a peer that owed an answer sent for the block the proposal
    /// names: check that they commit to it before using them.
    Verify { view: u64, epoch: u64, payload_commitment: u64, data: Vec<u8> },
}

/// The outstanding fetches, by view and payload commitment.
pub struct Fetcher {
    public_key: u64,
    requested: BTreeMap<(u64, u64), Fetch>,
}

/// `IteratorRandom::choose` over `items` with the thread's generator: one of
/// them, and none if and only if there are none. Which one is left to chance.
#[verifier::external_body]
fn choose_one(items: &Vec<u64>) -> (r: Option<u64>)
    ensures
        r is None <==> items.len() == 0,
        r matches Some(p) ==> items@.contains(p),
{
    items.iter().copied().choose(&mut rand::thread_rng())
}

/// The members of `committee` other than `me` and not in `asked`.
fn eligible(committee: &Vec<u64>, me: u64, asked: &BTreeSet<u64>) -> (r: Vec<u64>)
    ensures
        forall|p: u64| r@.contains(p) <==> committee@.contains(p) && p != me && !asked@.contains(p),
{
    let mut out: Vec<u64> = Vec::new();
    let mut i: usize = 0;
    while i < committee.len()
        invariant
            0 <= i <= committee.len(),
            forall|p: u64| out@.contains(p) <==> (exists|j: int| 0 <= j < i && committee@[j] == p) && p != me
                && !asked@.contains(p),
        decreases committee.len() - i,
    {
        let p = committee[i];
        let ghost old_out = out@;
        if p != me && !asked.contains(&p) {
            out.push(p);
        }
        proof {
            assert forall|q: u64| out@.contains(q) <==> (exists|j: int| 0 <= j < i + 1 && committee@[j] == q)
                && q != me && !asked@.contains(q) by {
                if out@.contains(q) && q != p {
                    let k = choose|k: int| 0 <= k < out@.len() && out@[k] == q;
                    assert(old_out[k] == q);
                }
                if old_out.contains(q) {
                    let k = choose|k: int| 0 <= k < old_out.len() && old_out[k] == q;
                    assert(out@[k] == q);
                }
                if q == p && p != me && !asked@.contains(p) {
                    assert(out@[out@.len() - 1] == p);
                }
                if exists|j: int| 0 <= j < i + 1 && committee@[j] == q {
                    let j = choose|j: int| 0 <= j < i + 1 && committee@[j] == q;
                    if j < i {
                        assert(exists|j: int| 0 <= j < i && committee@[j] == q);
                    }
                }
            }
        }
        i = i + 1;
    }
    proof {
        assert forall|p: u64| out@.contains(p) <==> committee@.contains(p) && p != me && !asked@.contains(p) by {
            if committee@.contains(p) {
                let j = choose|j: int| 0 <= j < committee@.len() && committee@[j] == p;
            }
        }
    }
    out
}

impl Fetcher {
    /// Who was asked, and who still owes an answer, per outstanding fetch.
    pub closed spec fn spec_requested(&self) -> Map<(u64, u64), (Set<u64>, Set<u64>)> {
        Map::new(
            |k: (u64, u64)| self.requested@.contains_key(k),
            |k: (u64, u64)| (self.requested@[k].asked@, self.requested@[k].pending@),
        )
    }

    pub closed spec fn spec_public_key(&self) -> u64 {
        self.public_key
    }

    pub fn new(public_key: u64) -> (r: Self)
        ensures
            r.spec_public_key() == public_key,
            r.spec_requested() == Map::<(u64, u64), (Set<u64>, Set<u64>)>::empty(),
    {
        let r = Fetcher { public_key, requested: BTreeMap::new() };
        assert(r.spec_requested() =~= Map::<(u64, u64), (Set<u64>, Set<u64>)>::empty());
        r
    }

    /// Whether `peer` was asked in this round of the fetch of `view`'s
    /// payload with `commitment`.
    pub fn was_asked(&self, view: u64, commitment: u64, peer: u64) -> (r: bool)
        ensures
            r == (self.spec_requested().contains_key((view, commitment))
                && self.spec_requested()[(view, commitment)].0.contains(peer)),
    {
        match self.requested.get(&(view, commitment)) {
            Some(f) => f.asked.contains(&peer),
            None => false,
        }
    }

    /// Whether `peer` owes an answer to the fetch of `view`'s payload with
    /// `commitment`.
    pub fn is_pending(&self, view: u64, commitment: u64, peer: u64) -> (r: bool)
        ensures
            r == (self.spec_requested().contains_key((view, commitment))
                && self.spec_requested()[(view, commitment)].1.contains(peer)),
    {
        match self.requested.get(&(view, commitment)) {
            Some(f) => f.pending.contains(&peer),
            None => false,
        }
    }

    /// Note that `peer` was asked, and owes an answer, in the fetch of
    /// `view`'s payload with `commitment`.
    pub fn mark_asked(&mut self, view: u64, commitment: u64, peer: u64)
        ensures
            final(self).spec_public_key() == old(self).spec_public_key(),
            final(self).spec_requested() == old(self).spec_requested().insert(
                (view, commitment),
                if old(self).spec_requested().contains_key((view, commitment)) {
                    (
                        old(self).spec_requested()[(view, commitment)].0.insert(peer),
                        old(self).spec_requested()[(view, commitment)].1.insert(peer),
                    )
                } else {
                    (set![peer], set![peer])
                },
            ),
    {
        let mut fetch = match self.requested.remove(&(view, commitment)) {
            Some(f) => f,
            None => Fetch::default(),
        };
        fetch.asked.insert(peer);
        fetch.pending.insert(peer);
        self.requested.insert((view, commitment), fetch);
        proof {
            let expected = old(self).spec_requested().insert(
                (view, commitment),
                if old(self).spec_requested().contains_key((view, commitment)) {
                    (
                        old(self).spec_requested()[(view, commitment)].0.insert(peer),
                        old(self).spec_requested()[(view, commitment)].1.insert(peer),
                    )
                } else {
                    (set![peer], set![peer])
                },
            );
            assert(self.spec_requested() =~= expected);
        }
    }

    /// Draw a peer to ask for `view`'s payload with `commitment`: a member
    /// of the committee of the proposal's epoch other than this node, not yet
    /// asked this round. When every peer was asked, only a new round starts
    /// over, forgetting who was asked, and draws from the whole committee.
    pub fn select_peer(&mut self, view: u64, commitment: u64, retry: Retry, consensus: &Consensus, membership: &Membership) -> (r: Option<u64>)
        ensures
            final(self).spec_public_key() == old(self).spec_public_key(),
            !consensus.spec_proposals().contains_key(view) ==> r is None && final(self).spec_requested() == old(self).spec_requested(),
            consensus.spec_proposals().contains_key(view) && fresh_candidate(membership, consensus.spec_proposals()[view].epoch, old(self).spec_public_key(), asked_in(old(self).spec_requested(), view, commitment))
                ==> (r matches Some(p) && is_candidate(membership, consensus.spec_proposals()[view].epoch, old(self).spec_public_key(), p)
                && !asked_in(old(self).spec_requested(), view, commitment).contains(p)),
            consensus.spec_proposals().contains_key(view) && fresh_candidate(membership, consensus.spec_proposals()[view].epoch, old(self).spec_public_key(), asked_in(old(self).spec_requested(), view, commitment))
                ==> final(self).spec_requested() == old(self).spec_requested(),
            consensus.spec_proposals().contains_key(view) && !fresh_candidate(membership, consensus.spec_proposals()[view].epoch, old(self).spec_public_key(), asked_in(old(self).spec_requested(), view, commitment))
                && (retry is SameRound || !old(self).spec_requested().contains_key((view, commitment)))
                ==> r is None && final(self).spec_requested() == old(self).spec_requested(),
            consensus.spec_proposals().contains_key(view) && !fresh_candidate(membership, consensus.spec_proposals()[view].epoch, old(self).spec_public_key(), asked_in(old(self).spec_requested(), view, commitment))
                && retry is NewRound && old(self).spec_requested().contains_key((view, commitment)) ==> {
                &&& final(self).spec_requested() == old(self).spec_requested().insert(
                    (view, commitment),
                    (Set::empty(), old(self).spec_requested()[(view, commitment)].1),
                )
                &&& (r is None <==> !fresh_candidate(membership, consensus.spec_proposals()[view].epoch, old(self).spec_public_key(), Set::empty()))
                &&& (r matches Some(p) ==> is_candidate(membership, consensus.spec_proposals()[view].epoch, old(self).spec_public_key(), p))
            },
    {
        let epoch = match consensus.proposal_at(view) {
            None => return None,
            Some(p) => p.epoch,
        };
        let committee = membership.stake_table(epoch);
        let me = self.public_key;
        let nobody: BTreeSet<u64> = BTreeSet::new();
        let ghost asked = asked_in(old(self).spec_requested(), view, commitment);
        let first = match self.requested.get(&(view, commitment)) {
            Some(f) => {
                assert(f.asked@ == asked);
                eligible(&committee, me, &f.asked)
            },
            None => {
                assert(nobody@ == asked);
                eligible(&committee, me, &nobody)
            },
        };
        proof {
            assert forall|p: u64| first@.contains(p) <==> is_candidate(membership, epoch, me, p) && !asked.contains(p) by {}
            if exists|p: u64| #[trigger] is_candidate(membership, epoch, me, p) && !asked.contains(p) {
                let p = choose|p: u64| #[trigger] is_candidate(membership, epoch, me, p) && !asked.contains(p);
                assert(first@.contains(p));
            }
        }
        match choose_one(&first) {
            Some(p) => {
                assert(first@.contains(p));
                assert(is_candidate(membership, epoch, me, p) && !asked.contains(p));
                assert(consensus.spec_proposals()[view].epoch == epoch);
                return Some(p);
            },
            None => {},
        }
        match retry {
            Retry::SameRound => return None,
            Retry::NewRound => {},
        }
        let mut fetch = match self.requested.remove(&(view, commitment)) {
            None => return None,
            Some(f) => f,
        };
        fetch.asked = BTreeSet::new();
        self.requested.insert((view, commitment), fetch);
        proof {
            assert(self.spec_requested() =~= old(self).spec_requested().insert(
                (view, commitment),
                (Set::empty(), old(self).spec_requested()[(view, commitment)].1),
            ));
        }
        let second = eligible(&committee, me, &nobody);
        proof {
            if fresh_candidate(membership, epoch, me, Set::empty()) {
                let p = choose|p: u64| #[trigger] is_candidate(membership, epoch, me, p) && !Set::<u64>::empty().contains(p);
                assert(second@.contains(p));
            }
            if second@.len() > 0 {
                assert(second@.contains(second@[0]));
                assert(is_candidate(membership, epoch, me, second@[0]) && !Set::<u64>::empty().contains(second@[0]));
            }
        }
        choose_one(&second)
    }

    /// Draw a peer for `view`'s payload with `commitment` as
    /// [`Fetcher::select_peer`] does, and note it as asked and owing an
    /// answer. The caller sends it the request.
    pub fn request(&mut self, view: u64, commitment: u64, retry: Retry, consensus: &Consensus, membership: &Membership) -> (r: Option<u64>)
        ensures
            final(self).spec_public_key() == old(self).spec_public_key(),
            !consensus.spec_proposals().contains_key(view) ==> r is None && final(self).spec_requested() == old(self).spec_requested(),
            consensus.spec_proposals().contains_key(view) && fresh_candidate(membership, consensus.spec_proposals()[view].epoch, old(self).spec_public_key(), asked_in(old(self).spec_requested(), view, commitment))
                ==> r is Some,
            consensus.spec_proposals().contains_key(view) && !fresh_candidate(membership, consensus.spec_proposals()[view].epoch, old(self).spec_public_key(), asked_in(old(self).spec_requested(), view, commitment))
                && (retry is SameRound || !old(self).spec_requested().contains_key((view, commitment)))
                ==> r is None && final(self).spec_requested() == old(self).spec_requested(),
            r matches Some(p) ==> {
                let epoch = consensus.spec_proposals()[view].epoch;
                &&& consensus.spec_proposals().contains_key(view)
                &&& is_candidate(membership, epoch, old(self).spec_public_key(), p)
                &&& final(self).spec_requested().contains_key((view, commitment))
                &&& final(self).spec_requested()[(view, commitment)].0.contains(p)
                &&& final(self).spec_requested()[(view, commitment)].1.contains(p)
            },
    {
        let target = match self.select_peer(view, commitment, retry, consensus, membership) {
            None => return None,
            Some(p) => p,
        };
        self.mark_asked(view, commitment, target);
        Some(target)
    }

    /// Drop the fetches of `view` and earlier.
    pub fn gc(&mut self, view: u64)
        ensures
            final(self).spec_public_key() == old(self).spec_public_key(),
            final(self).spec_requested() == old(self).spec_requested().restrict(
                old(self).spec_requested().dom().filter(|k: (u64, u64)| k.0 > view),
            ),
    {
        if view < u64::MAX {
            crate::collections::pair_map_retain_from(&mut self.requested, view + 1);
        } else {
            self.requested = BTreeMap::new();
        }
        proof {
            assert(self.spec_requested() =~= old(self).spec_requested().restrict(
                old(self).spec_requested().dom().filter(|k: (u64, u64)| k.0 > view),
            ));
        }
    }

    /// Take a refusal from `sender` for `view`: if it owes an answer to one
    /// of that view's fetches (the one with the least payload commitment,
    /// when several), its slot is spent and another peer is to be drawn;
    /// otherwise the refusal is ignored, so a peer cannot keep the draw
    /// going round the committee.
    fn refusal(&mut self, view: u64, sender: u64) -> (r: ResponseOutcome)
        ensures
            final(self).spec_public_key() == old(self).spec_public_key(),
            !owes_answer(old(self).spec_requested(), view, sender) ==> r is Dropped && final(self).spec_requested() == old(self).spec_requested(),
            owes_answer(old(self).spec_requested(), view, sender) ==> {
                let c = first_owing(old(self).spec_requested(), view, sender);
                &&& r is Redraw
                &&& final(self).spec_requested() == old(self).spec_requested().insert(
                    (view, c),
                    (old(self).spec_requested()[(view, c)].0, old(self).spec_requested()[(view, c)].1.remove(sender)),
                )
            },
    {
        let mut best: Option<u64> = None;
        let ghost req = old(self).spec_requested();
        let ghost all = vstd::std_specs::btree::spec_keys_iter(&self.requested).remaining();
        for k in it: self.requested.keys()
            invariant
                it.seq() == all,
                all.unref().to_set() == self.requested@.dom(),
                *self == *old(self),
                req == self.spec_requested(),
                match best {
                    None => forall|i: int| 0 <= i < it.index() ==> !owes(req, *#[trigger] all[i], view, sender),
                    Some(b) => owes(req, (view, b), view, sender) && forall|i: int|
                        0 <= i < it.index() && owes(req, *#[trigger] all[i], view, sender) ==> b <= all[i].1,
                },
        {
            assert(*k == *all[it.index() as int]);
            assert(all.unref().contains(*k));
            if k.0 == view {
                let owing = match self.requested.get(k) {
                    Some(f) => f.pending.contains(&sender),
                    None => false,
                };
                if owing {
                    match best {
                        None => best = Some(k.1),
                        Some(b) => if k.1 < b {
                            best = Some(k.1);
                        },
                    }
                }
            }
        }
        proof {
            assert forall|j: (u64, u64)| self.requested@.contains_key(j) implies exists|i: int|
                0 <= i < all.len() && *#[trigger] all[i] == j by {
                assert(all.unref().to_set().contains(j));
                let i = choose|i: int| 0 <= i < all.unref().len() && all.unref()[i] == j;
                assert(*all[i] == j);
            }
        }
        match best {
            None => {
                proof {
                    assert forall|c: u64| !#[trigger] owes(req, (view, c), view, sender) by {
                        if owes(req, (view, c), view, sender) {
                            let i = choose|i: int| 0 <= i < all.len() && *#[trigger] all[i] == (view, c);
                        }
                    }
                }
                ResponseOutcome::Dropped
            },
            Some(b) => {
                proof {
                    assert forall|c: u64| #[trigger] owes(req, (view, c), view, sender) implies b <= c by {
                        let i = choose|i: int| 0 <= i < all.len() && *#[trigger] all[i] == (view, c);
                    }
                    assert(first_owing(req, view, sender) == b);
                }
                let mut fetch = self.requested.remove(&(view, b)).unwrap();
                fetch.pending.remove(&sender);
                self.requested.insert((view, b), fetch);
                proof {
                    assert(self.spec_requested() =~= req.insert(
                        (view, b),
                        (req[(view, b)].0, req[(view, b)].1.remove(sender)),
                    ));
                }
                ResponseOutcome::Redraw
            },
        }
    }

    /// Take `sender`'s answer for `view`. A refusal is handled as
    /// [`Fetcher::refusal`] says. A payload is taken only for the block the
    /// view's proposal names, and only from a peer that owes an answer for
    /// it, whose slot it then spends: bytes for a block not yet reconstructed
    /// go to be checked against the commitment, which alone vouches for them.
    pub fn response(&mut self, view: u64, body: PayloadResponseBody, sender: u64, consensus: &Consensus) -> (r: ResponseOutcome)
        ensures
            responded(*old(self), *final(self), view, body, sender, *consensus, r),
    {
        let (commitment, data) = match body {
            PayloadResponseBody::NotAvailable => return self.refusal(view, sender),
            PayloadResponseBody::TooLarge => return self.refusal(view, sender),
            PayloadResponseBody::Payload { commitment, data } => (commitment, data),
        };
        let proposal = match consensus.proposal_at(view) {
            None => return ResponseOutcome::Dropped,
            Some(p) => *p,
        };
        let payload_commitment = match proposal.block_header.payload_commitment {
            VidCommitment::V2(c) => c,
            VidCommitment::V1(_) => return ResponseOutcome::Dropped,
        };
        if payload_commitment != commitment {
            return ResponseOutcome::Dropped;
        }
        let mut fetch = match self.requested.remove(&(view, payload_commitment)) {
            None => {
                proof {
                    assert(self.spec_requested() =~= old(self).spec_requested());
                }
                return ResponseOutcome::Dropped;
            },
            Some(f) => f,
        };
        if !fetch.pending.contains(&sender) {
            self.requested.insert((view, payload_commitment), fetch);
            proof {
                assert(self.spec_requested() =~= old(self).spec_requested());
            }
            return ResponseOutcome::Dropped;
        }
        fetch.pending.remove(&sender);
        self.requested.insert((view, payload_commitment), fetch);
        proof {
            assert(self.spec_requested() =~= old(self).spec_requested().insert(
                (view, commitment),
                (
                    old(self).spec_requested()[(view, commitment)].0,
                    old(self).spec_requested()[(view, commitment)].1.remove(sender),
                ),
            ));
        }
        if consensus.is_reconstructed(view, payload_commitment) {
            return ResponseOutcome::Dropped;
        }
        ResponseOutcome::Verify { view, epoch: proposal.epoch, payload_commitment, data }
    }
}

/// What `sender`'s answer `body` for `view` does to a fetcher `a`, leaving
/// `b` and answering `r`: as [`Fetcher::response`] says.
pub open spec fn responded(a: Fetcher, b: Fetcher, view: u64, body: PayloadResponseBody, sender: u64, consensus: Consensus, r: ResponseOutcome) -> bool {
    &&& b.spec_public_key() == a.spec_public_key()
    &&& (body is NotAvailable || body is TooLarge) ==> {
        &&& !owes_answer(a.spec_requested(), view, sender) ==> r is Dropped && b.spec_requested() == a.spec_requested()
        &&& owes_answer(a.spec_requested(), view, sender) ==> r is Redraw && b.spec_requested()
            == a.spec_requested().insert(
            (view, first_owing(a.spec_requested(), view, sender)),
            (
                a.spec_requested()[(view, first_owing(a.spec_requested(), view, sender))].0,
                a.spec_requested()[(view, first_owing(a.spec_requested(), view, sender))].1.remove(sender),
            ),
        )
    }
    &&& body matches PayloadResponseBody::Payload { commitment, data } ==> {
        let named = named_commitment(&consensus, view);
        let accepted = named == Some(commitment) && owes(a.spec_requested(), (view, commitment), view, sender);
        &&& !accepted ==> r is Dropped && b.spec_requested() == a.spec_requested()
        &&& accepted ==> b.spec_requested() == a.spec_requested().insert(
            (view, commitment),
            (a.spec_requested()[(view, commitment)].0, a.spec_requested()[(view, commitment)].1.remove(sender)),
        )
        &&& accepted && consensus.spec_reconstructed().contains((view, commitment)) ==> r is Dropped
        &&& accepted && !consensus.spec_reconstructed().contains((view, commitment)) ==> (r matches ResponseOutcome::Verify {
            view: v,
            epoch,
            payload_commitment,
            data: d,
        } && v == view && epoch == consensus.spec_proposals()[view].epoch && payload_commitment == commitment
            && d@ == data@)
    }
}

/// One request buys one verification: after a peer's payload for a view
/// went to be checked, no further payload of that peer for the view does,
/// until it is asked again.
pub proof fn law_one_answer_per_request(
    a: Fetcher,
    b: Fetcher,
    c: Fetcher,
    view: u64,
    body1: PayloadResponseBody,
    body2: PayloadResponseBody,
    sender: u64,
    consensus: Consensus,
    r1: ResponseOutcome,
    r2: ResponseOutcome,
)
    requires
        responded(a, b, view, body1, sender, consensus, r1),
        r1 is Verify,
        responded(b, c, view, body2, sender, consensus, r2),
    ensures
        !(r2 is Verify),
{
}

/// Whether the fetch under `key`, of `view`, waits on an answer from `sender`.
pub open spec fn owes(requested: Map<(u64, u64), (Set<u64>, Set<u64>)>, key: (u64, u64), view: u64, sender: u64) -> bool {
    key.0 == view && requested.contains_key(key) && requested[key].1.contains(sender)
}

/// Whether some fetch of `view` waits on an answer from `sender`.
pub open spec fn owes_answer(requested: Map<(u64, u64), (Set<u64>, Set<u64>)>, view: u64, sender: u64) -> bool {
    exists|c: u64| #[trigger] owes(requested, (view, c), view, sender)
}

/// The least payload commitment among the fetches of `view` that wait on
/// `sender`.
pub open spec fn first_owing(requested: Map<(u64, u64), (Set<u64>, Set<u64>)>, view: u64, sender: u64) -> u64 {
    choose|c: u64| #[trigger] owes(requested, (view, c), view, sender) && forall|d: u64|
        #[trigger] owes(requested, (view, d), view, sender) ==> c <= d
}

/// The payload commitment the proposal at `view` names, in the newer
/// dispersal scheme.
pub open spec fn named_commitment(consensus: &Consensus, view: u64) -> Option<u64> {
    if consensus.spec_proposals().contains_key(view) {
        match consensus.spec_proposals()[view].block_header.payload_commitment {
            VidCommitment::V2(c) => Some(c),
            VidCommitment::V1(_) => None,
        }
    } else {
        None
    }
}

/// Whether `p` is a peer this node may ask: staked in `epoch`, and not
/// this node.
pub open spec fn is_candidate(membership: &Membership, epoch: u64, me: u64, p: u64) -> bool {
    membership.spec_has_stake(epoch, p) && p != me
}

/// Whether some peer this node may ask in `epoch` is not in `asked`.
pub open spec fn fresh_candidate(membership: &Membership, epoch: u64, me: u64, asked: Set<u64>) -> bool {
    exists|p: u64| #[trigger] is_candidate(membership, epoch, me, p) && !asked.contains(p)
}

/// Who the fetch of `view`'s payload with `commitment` asked this round.
pub open spec fn asked_in(requested: Map<(u64, u64), (Set<u64>, Set<u64>)>, view: u64, commitment: u64) -> Set<u64> {
    if requested.contains_key((view, commitment)) {
        requested[(view, commitment)].0
    } else {
        Set::empty()
    }
}

} // verus!
