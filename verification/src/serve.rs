//! The serving half of payload recovery.
//!
//! What a stalled peer asks for is the payload of the view the quorum is
//! locked at, so that is what a node keeps. Payloads arrive before the
//! certificate that moves the lock onto them, and in a stall later views keep
//! reconstructing while every lock stays put, so a few of the most recent are
//! held as candidates until one of them is locked.
use std::collections::BTreeMap;
use vstd::prelude::*;
use vstd::std_specs::iter::IteratorSpec;

verus! {

broadcast use vstd::std_specs::btree::group_btree_axioms, vstd::map::group_map_axioms,
    vstd::set::group_set_axioms;

/// How many views after a timeout this node keeps answering requests.
pub const SERVE_AFTER_TIMEOUT: u64 = 3;

/// How many blocks to keep: the one of the locked view, and candidates
/// waiting for a certificate to move the lock onto them. It bounds how late
/// a certificate may be, in payloads obtained meanwhile, before the block it
/// certifies has been evicted.
pub const RETAINED_BLOCKS: usize = 4;

/// A block this node can hand to a peer, encoded once when retained so that
/// answering costs no more than a copy.
pub struct RetainedBlock {
    pub payload_commitment: u64,
    pub payload: Vec<u8>,
}

/// What to answer a peer's payload request with.
pub enum ServeAnswer {
    /// Nothing at all: outside a timeout window a refusal would only send
    /// the requester to another peer, for a reason that has nothing to do
    /// with which peer was asked.
    Silence,
    /// The block of that view is not retained.
    NotAvailable,
    /// The block does not fit a message.
    TooLarge,
    /// The block.
    Payload { commitment: u64, data: Vec<u8> },
}

pub struct Server {
    public_key: u64,
    /// The blocks this node can serve, by view.
    blocks: BTreeMap<u64, RetainedBlock>,
    /// The view this node is locked at, whose block is never evicted.
    locked: Option<u64>,
    /// The last view the network timed out on, which is what makes this node
    /// willing to serve at all.
    timed_out: Option<u64>,
}

/// The earliest view of `blocks` other than `locked`.
pub open spec fn evictee(blocks: Map<u64, RetainedBlock>, locked: Option<u64>) -> u64 {
    choose|k: u64|
        blocks.contains_key(k) && locked != Some(k) && forall|j: u64|
            blocks.contains_key(j) && locked != Some(j) ==> k <= j
}

/// The later of two optional views, where `None` is earliest.
pub open spec fn later(a: Option<u64>, b: Option<u64>) -> Option<u64> {
    match (a, b) {
        (Some(x), Some(y)) => if x >= y { Some(x) } else { Some(y) },
        (Some(x), None) => Some(x),
        (None, _) => b,
    }
}

impl Server {
    pub closed spec fn spec_blocks(&self) -> Map<u64, RetainedBlock> {
        self.blocks@
    }

    pub closed spec fn spec_locked(&self) -> Option<u64> {
        self.locked
    }

    pub closed spec fn spec_timed_out(&self) -> Option<u64> {
        self.timed_out
    }

    pub closed spec fn spec_public_key(&self) -> u64 {
        self.public_key
    }

    /// At most [`RETAINED_BLOCKS`] blocks are kept, and the locked view's
    /// block is one of them.
    pub open spec fn wf(&self) -> bool {
        &&& self.spec_blocks().dom().finite()
        &&& self.spec_blocks().len() <= RETAINED_BLOCKS
        &&& (self.spec_locked() matches Some(v) ==> self.spec_blocks().contains_key(v))
    }

    pub fn new(public_key: u64) -> (r: Self)
        ensures
            r.wf(),
            r.spec_public_key() == public_key,
            r.spec_blocks() == Map::<u64, RetainedBlock>::empty(),
            r.spec_locked() is None,
            r.spec_timed_out() is None,
    {
        Server { public_key, blocks: BTreeMap::new(), locked: None, timed_out: None }
    }

    /// Hold on to a freshly obtained block of `view`, evicting the earliest
    /// one other than the locked one if more than [`RETAINED_BLOCKS`] are
    /// held. Which retained block the lock lands on is not known yet, and
    /// decoding several views can finish out of order; keeping the last few
    /// means the one the lock reaches is still here when it does.
    pub fn retain(&mut self, view: u64, payload_commitment: u64, payload: Vec<u8>)
        requires
            old(self).wf(),
        ensures
            final(self).wf(),
            final(self).spec_locked() == old(self).spec_locked(),
            final(self).spec_timed_out() == old(self).spec_timed_out(),
            final(self).spec_public_key() == old(self).spec_public_key(),
            ({
                let m = old(self).spec_blocks().insert(view, RetainedBlock { payload_commitment, payload });
                final(self).spec_blocks() == if m.len() > RETAINED_BLOCKS {
                    m.remove(evictee(m, old(self).spec_locked()))
                } else {
                    m
                }
            }),
    {
        let ghost old_blocks = self.blocks@;
        self.blocks.insert(view, RetainedBlock { payload_commitment, payload });
        let ghost m = self.blocks@;
        assert(m.dom() =~= old_blocks.dom().insert(view));
        if self.blocks.len() > RETAINED_BLOCKS {
            // The earliest view other than the locked one.
            let mut best: Option<u64> = None;
            let ghost all = vstd::std_specs::btree::spec_keys_iter(&self.blocks).remaining();
            for k in it: self.blocks.keys()
                invariant
                    it.seq() == all,
                    all.unref().to_set() == m.dom(),
                    self.blocks@ == m,
                    self.locked == old(self).locked,
                    match best {
                        None => forall|i: int| 0 <= i < it.index() ==> self.locked == Some(*#[trigger] all[i]),
                        Some(b) => m.contains_key(b) && self.locked != Some(b) && forall|i: int|
                            0 <= i < it.index() && self.locked != Some(*all[i]) ==> b <= *#[trigger] all[i],
                    },
            {
                assert(*k == *all[it.index() as int]);
                assert(all.unref().contains(*k));
                if self.locked != Some(*k) {
                    match best {
                        None => best = Some(*k),
                        Some(b) => if *k < b {
                            best = Some(*k);
                        },
                    }
                }
            }
            proof {
                assert forall|j: u64| m.contains_key(j) implies exists|i: int|
                    0 <= i < all.len() && *#[trigger] all[i] == j by {
                    assert(all.unref().to_set().contains(j));
                    let i = choose|i: int| 0 <= i < all.unref().len() && all.unref()[i] == j;
                    assert(*all[i] == j);
                }
            }
            match best {
                Some(b) => {
                    proof {
                        assert forall|j: u64| m.contains_key(j) && self.locked != Some(j) implies b <= j by {
                            let i = choose|i: int| 0 <= i < all.len() && *#[trigger] all[i] == j;
                        }
                        assert(evictee(m, old(self).locked) == b);
                    }
                    self.blocks.remove(&b);
                    proof {
                        assert(self.blocks@.dom() =~= m.dom().remove(b));
                    }
                },
                None => {
                    // More than one block is held, and only one is locked.
                    proof {
                        assert(false) by {
                            let a = choose|j: u64| m.contains_key(j) && self.locked != Some(j);
                            assert(m.dom().len() > 1);
                            let x = m.dom().choose();
                            assert(m.dom().remove(x).len() > 0);
                            let y = m.dom().remove(x).choose();
                            assert(m.contains_key(x) && m.contains_key(y) && x != y);
                            if self.locked != Some(x) {
                                let i = choose|i: int| 0 <= i < all.len() && *#[trigger] all[i] == x;
                            } else {
                                let i = choose|i: int| 0 <= i < all.len() && *#[trigger] all[i] == y;
                            }
                        }
                    }
                },
            }
        }
    }

    /// Follow this node's lock to `view`, so that view's block is the one
    /// kept. A lock only moves to a reconstructed view, so its block is
    /// normally held; when a certificate came so late that the block was
    /// evicted, nothing is served for the lock until it moves again.
    pub fn lock_moved(&mut self, view: u64)
        requires
            old(self).wf(),
        ensures
            final(self).wf(),
            final(self).spec_blocks() == old(self).spec_blocks(),
            final(self).spec_timed_out() == old(self).spec_timed_out(),
            final(self).spec_public_key() == old(self).spec_public_key(),
            final(self).spec_locked() == if old(self).spec_blocks().contains_key(view) {
                Some(view)
            } else {
                old(self).spec_locked()
            },
    {
        if self.blocks.contains_key(&view) {
            self.locked = Some(view);
        }
    }

    /// Note that the network timed out on `view`.
    pub fn view_timed_out(&mut self, view: u64)
        ensures
            final(self).spec_timed_out() == later(old(self).spec_timed_out(), Some(view)),
            final(self).spec_blocks() == old(self).spec_blocks(),
            final(self).spec_locked() == old(self).spec_locked(),
            final(self).spec_public_key() == old(self).spec_public_key(),
    {
        self.timed_out = match self.timed_out {
            Some(t) => if t >= view { Some(t) } else { Some(view) },
            None => Some(view),
        };
    }

    /// Whether a payload fetch is plausible in `current_view`: within
    /// [`SERVE_AFTER_TIMEOUT`] views of the last timeout.
    pub fn serving(&self, current_view: u64) -> (r: bool)
        ensures
            r == (self.spec_timed_out() matches Some(t) && current_view <= t + SERVE_AFTER_TIMEOUT),
    {
        match self.timed_out {
            Some(t) => current_view <= t.saturating_add(SERVE_AFTER_TIMEOUT),
            None => false,
        }
    }

    /// Whether the block of `view` is retained.
    pub fn holds(&self, view: u64) -> (r: bool)
        ensures
            r == self.spec_blocks().contains_key(view),
    {
        self.blocks.contains_key(&view)
    }

    /// How many blocks are retained.
    pub fn retained(&self) -> (r: usize)
        ensures
            r == self.spec_blocks().len(),
    {
        self.blocks.len()
    }

    /// The view this node is locked at, if its block is held.
    pub fn locked(&self) -> (r: Option<u64>)
        ensures
            r == self.spec_locked(),
    {
        self.locked
    }

    pub fn public_key(&self) -> (r: u64)
        ensures
            r == self.spec_public_key(),
    {
        self.public_key
    }

    /// The answer to a request for the payload of `view`, received in
    /// `slot`, for messages of at most `max_message_size` bytes: silence
    /// outside a timeout window, else the block if it is retained and fits.
    pub fn handle_request(&self, view: u64, slot: u64, max_message_size: usize) -> (r: ServeAnswer)
        ensures
            !(self.spec_timed_out() matches Some(t) && slot <= t + SERVE_AFTER_TIMEOUT) ==> r is Silence,
            (self.spec_timed_out() matches Some(t) && slot <= t + SERVE_AFTER_TIMEOUT) ==> {
                &&& !self.spec_blocks().contains_key(view) ==> r is NotAvailable
                &&& self.spec_blocks().contains_key(view) && self.spec_blocks()[view].payload.len() >= max_message_size
                    ==> r is TooLarge
                &&& self.spec_blocks().contains_key(view) && self.spec_blocks()[view].payload.len() < max_message_size
                    ==> (r matches ServeAnswer::Payload { commitment, data } && commitment
                    == self.spec_blocks()[view].payload_commitment && data@ == self.spec_blocks()[view].payload@)
            },
    {
        if !self.serving(slot) {
            return ServeAnswer::Silence;
        }
        match self.blocks.get(&view) {
            None => ServeAnswer::NotAvailable,
            Some(block) => {
                if block.payload.len() >= max_message_size {
                    ServeAnswer::TooLarge
                } else {
                    ServeAnswer::Payload { commitment: block.payload_commitment, data: block.payload.clone() }
                }
            },
        }
    }
}


/// How the network took a send.
#[derive(Clone, Copy, Debug, PartialEq, Eq, Structural)]
pub enum SendOutcome {
    Sent,
    /// Refused as larger than a message may be.
    TooLarge,
    /// Failed for another reason.
    Failed,
}

/// What is sent after `answer` went out with `outcome`: a payload the
/// network refused as too large is followed by a too-large answer; nothing
/// follows anything else.
pub fn after_send(answer: &ServeAnswer, outcome: SendOutcome) -> (r: Option<ServeAnswer>)
    ensures
        answer is Payload && outcome is TooLarge ==> r matches Some(ServeAnswer::TooLarge),
        !(answer is Payload && outcome is TooLarge) ==> r is None,
{
    match (answer, outcome) {
        (ServeAnswer::Payload { .. }, SendOutcome::TooLarge) => Some(ServeAnswer::TooLarge),
        _ => None,
    }
}

/// Whether a request was served: the last send made for it went out.
pub fn request_served(first: SendOutcome, fallback: Option<SendOutcome>) -> (r: bool)
    ensures
        r == match fallback {
            Some(o) => o is Sent,
            None => first is Sent,
        },
{
    match fallback {
        Some(o) => matches!(o, SendOutcome::Sent),
        None => matches!(first, SendOutcome::Sent),
    }
}

} // verus!
