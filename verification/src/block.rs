//! The transactions a node holds on the way into blocks.
//!
//! Submitted transactions wait in a retry buffer, bounded in bytes, until
//! they are included or expire; each view they are forwarded to the next
//! leader, oldest first, within one block and one message. A leader keeps
//! what is forwarded to it in a buffer bounded by its block size, and drops
//! transactions that recent blocks already included. Building the block from
//! a drained buffer is the caller's.
use crate::limits::{forward_budget, message_limit, spec_message_limit};
use crate::sums::{lemma_map_sum_bounds, lemma_map_sum_insert, lemma_map_sum_nonneg, lemma_map_sum_remove, map_sum};
use std::collections::{BTreeMap, BTreeSet};
use vstd::prelude::*;
use vstd::std_specs::iter::IteratorSpec;

verus! {

broadcast use vstd::std_specs::btree::group_btree_axioms, vstd::laws_cmp::group_laws_cmp,
    vstd::seq_lib::group_seq_properties;

/// How a node buffers transactions.
pub struct BlockBuilderConfig {
    /// The bound on the bytes of the retry buffer.
    pub max_retry_bytes: u64,
    /// The chain's block size, by the first view it holds from: the size of
    /// the protocol version that takes effect there.
    pub block_sizes: BTreeMap<u64, u64>,
    /// How many views a submitted transaction is retried.
    pub ttl: u64,
    /// How many views of included transactions are remembered.
    pub dedup_window_size: u64,
}

impl Default for BlockBuilderConfig {
    /// A 100 MiB retry buffer, 2 MiB blocks from the first view on,
    /// transactions retried for 50 views, and the last 10 views' inclusions
    /// remembered.
    fn default() -> (r: Self)
        ensures
            r.max_retry_bytes == 100 * 1024 * 1024,
            r.block_sizes@ == map![0u64 => 2097152u64],
            r.ttl == 50,
            r.dedup_window_size == 10,
    {
        let mut block_sizes: BTreeMap<u64, u64> = BTreeMap::new();
        block_sizes.insert(0, 2 * 1024 * 1024);
        proof { assert(block_sizes@ =~= map![0u64 => 2097152u64]); }
        BlockBuilderConfig { max_retry_bytes: 100 * 1024 * 1024, block_sizes, ttl: 50, dedup_window_size: 10 }
    }
}

/// A submitted transaction: its bytes counted against a block, and on the
/// wire, and the last view it is retried in.
pub struct RetryEntry<T> {
    pub tx: T,
    pub valid_until: u64,
    pub size: u64,
    pub encoded_size: u64,
}

/// What became of a submitted transaction.
#[derive(Clone, Copy, Debug)]
pub enum Submitted {
    /// It was already waiting.
    Duplicate,
    /// It can never fit a block or a message.
    TooLarge,
    /// The retry buffer has no room for it.
    BufferFull,
    Accepted,
}

pub struct BlockBuilder<T> {
    retry_pending: BTreeMap<u64, RetryEntry<T>>,
    /// The waiting transactions by (last view, hash), oldest first.
    retry_order: BTreeSet<(u64, u64)>,
    retry_total_bytes: u64,
    /// What a leader was forwarded, with each transaction's size.
    leader_buffer: BTreeMap<u64, (T, u64)>,
    leader_total_bytes: u64,
    /// The transactions recent blocks included, by view.
    dedups: BTreeMap<u64, BTreeSet<u64>>,
    config: BlockBuilderConfig,
    current_view: u64,
    /// Blocks being built, by view and parent leaf commitment.
    calculations: BTreeSet<(u64, u64)>,
}

/// The sizes of a map's entries.
pub open spec fn retry_sizes<T>(m: Map<u64, RetryEntry<T>>) -> Map<u64, u64> {
    Map::new(|h: u64| m.contains_key(h), |h: u64| m[h].size)
}

pub open spec fn leader_sizes<T>(m: Map<u64, (T, u64)>) -> Map<u64, u64> {
    Map::new(|h: u64| m.contains_key(h), |h: u64| m[h].1)
}

/// The order lists exactly the waiting transactions, by last view and hash.
pub open spec fn order_matches<T>(order: Set<(u64, u64)>, pending: Map<u64, RetryEntry<T>>) -> bool {
    forall|vu: u64, h: u64| #[trigger] order.contains((vu, h)) <==> pending.contains_key(h) && pending[h].valid_until == vu
}

/// The block size that holds at `view`: the one of the greatest first view
/// at or before it.
pub open spec fn size_at(sizes: Map<u64, u64>, view: u64) -> u64 {
    sizes[choose|k: u64| sizes.contains_key(k) && k <= view && forall|j: u64| sizes.contains_key(j) && j <= view ==> j <= k]
}

impl<T> BlockBuilder<T> {
    pub closed spec fn spec_pending(&self) -> Map<u64, RetryEntry<T>> {
        self.retry_pending@
    }

    pub closed spec fn spec_order(&self) -> Set<(u64, u64)> {
        self.retry_order@
    }

    pub closed spec fn spec_retry_total(&self) -> u64 {
        self.retry_total_bytes
    }

    pub closed spec fn spec_leader_buffer(&self) -> Map<u64, (T, u64)> {
        self.leader_buffer@
    }

    pub closed spec fn spec_leader_total(&self) -> u64 {
        self.leader_total_bytes
    }

    pub closed spec fn spec_dedups(&self) -> Map<u64, Set<u64>> {
        Map::new(|v: u64| self.dedups@.contains_key(v), |v: u64| self.dedups@[v]@)
    }

    pub closed spec fn spec_current_view(&self) -> u64 {
        self.current_view
    }

    pub closed spec fn spec_max_retry_bytes(&self) -> u64 {
        self.config.max_retry_bytes
    }

    pub closed spec fn spec_block_sizes(&self) -> Map<u64, u64> {
        self.config.block_sizes@
    }

    pub closed spec fn spec_ttl(&self) -> u64 {
        self.config.ttl
    }

    pub closed spec fn spec_dedup_window(&self) -> u64 {
        self.config.dedup_window_size
    }

    pub closed spec fn spec_calculations(&self) -> Set<(u64, u64)> {
        self.calculations@
    }

    /// The retry buffer's order lists exactly its transactions, its byte
    /// count is the sum of their sizes and within its bound, the leader
    /// buffer's byte count is the sum of its sizes, and a block size holds
    /// from the first view.
    pub open spec fn wf(&self) -> bool {
        &&& self.spec_pending().dom().finite()
        &&& self.spec_leader_buffer().dom().finite()
        &&& order_matches(self.spec_order(), self.spec_pending())
        &&& self.spec_retry_total() == map_sum(retry_sizes(self.spec_pending()))
        &&& self.spec_retry_total() <= self.spec_max_retry_bytes()
        &&& self.spec_leader_total() == map_sum(leader_sizes(self.spec_leader_buffer()))
        &&& self.spec_block_sizes().contains_key(0)
    }

    pub fn new(config: BlockBuilderConfig) -> (r: Self)
        requires
            config.block_sizes@.contains_key(0),
        ensures
            r.wf(),
            r.spec_pending() == Map::<u64, RetryEntry<T>>::empty(),
            r.spec_leader_buffer() == Map::<u64, (T, u64)>::empty(),
            r.spec_dedups() == Map::<u64, Set<u64>>::empty(),
            r.spec_current_view() == 0,
            r.spec_calculations() == Set::<(u64, u64)>::empty(),
            r.spec_max_retry_bytes() == config.max_retry_bytes,
            r.spec_block_sizes() == config.block_sizes@,
            r.spec_ttl() == config.ttl,
            r.spec_dedup_window() == config.dedup_window_size,
    {
        let r = BlockBuilder {
            retry_pending: BTreeMap::new(),
            retry_order: BTreeSet::new(),
            retry_total_bytes: 0,
            leader_buffer: BTreeMap::new(),
            leader_total_bytes: 0,
            dedups: BTreeMap::new(),
            config,
            current_view: 0,
            calculations: BTreeSet::new(),
        };
        proof {
            assert(retry_sizes(r.spec_pending()) =~= Map::<u64, u64>::empty());
            assert(leader_sizes(r.spec_leader_buffer()) =~= Map::<u64, u64>::empty());
            assert(r.spec_dedups() =~= Map::<u64, Set<u64>>::empty());
        }
        r
    }

    /// The block size at `view`.
    fn block_size(&self, view: u64) -> (r: u64)
        requires
            self.wf(),
        ensures
            r == size_at(self.spec_block_sizes(), view),
    {
        let mut best: u64 = 0;
        let ghost sizes = self.config.block_sizes@;
        let ghost all = vstd::std_specs::btree::spec_keys_iter(&self.config.block_sizes).remaining();
        for k in it: self.config.block_sizes.keys()
            invariant
                it.seq() == all,
                all.unref().to_set() == sizes.dom(),
                sizes == self.config.block_sizes@,
                sizes.contains_key(best) && best <= view,
                forall|i: int| 0 <= i < it.index() && *#[trigger] all[i] <= view ==> *all[i] <= best,
                sizes.contains_key(0),
        {
            assert(*k == *all[it.index() as int]);
            if *k <= view && *k > best {
                best = *k;
            }
        }
        proof {
            assert forall|j: u64| sizes.contains_key(j) && j <= view implies j <= best by {
                assert(all.unref().to_set().contains(j));
                let i = choose|i: int| 0 <= i < all.unref().len() && all.unref()[i] == j;
                assert(*all[i] == j);
            }
        }
        *self.config.block_sizes.get(&best).unwrap()
    }

    /// Drop `hash` from the retry buffer.
    fn remove_pending(&mut self, hash: u64)
        requires
            old(self).wf(),
        ensures
            final(self).wf(),
            final(self).spec_pending() == old(self).spec_pending().remove(hash),
            final(self).spec_leader_buffer() == old(self).spec_leader_buffer(),
            final(self).spec_leader_total() == old(self).spec_leader_total(),
            final(self).spec_dedups() == old(self).spec_dedups(),
            final(self).spec_current_view() == old(self).spec_current_view(),
            final(self).spec_calculations() == old(self).spec_calculations(),
            final(self).spec_max_retry_bytes() == old(self).spec_max_retry_bytes(),
            final(self).spec_block_sizes() == old(self).spec_block_sizes(),
            final(self).spec_ttl() == old(self).spec_ttl(),
            final(self).spec_dedup_window() == old(self).spec_dedup_window(),
    {
        let ghost before = self.retry_pending@;
        match self.retry_pending.remove(&hash) {
            None => {
                proof {
                    assert(before.remove(hash) =~= before);
                    assert(self.spec_pending() == old(self).spec_pending());
                    assert(self.spec_order() == old(self).spec_order());
                }
            },
            Some(entry) => {
                proof {
                    assert(retry_sizes(before).dom() =~= before.dom());
                    assert(retry_sizes(self.retry_pending@).dom() =~= self.retry_pending@.dom());
                    lemma_map_sum_remove(retry_sizes(before), hash);
                    assert(retry_sizes(before).remove(hash) =~= retry_sizes(self.retry_pending@));
                    lemma_map_sum_nonneg(retry_sizes(self.retry_pending@));
                }
                let ghost order_before = self.retry_order@;
                self.retry_order.remove(&(entry.valid_until, hash));
                self.retry_total_bytes = self.retry_total_bytes - entry.size;
                proof {
                    assert(entry.valid_until == before[hash].valid_until);
                    assert forall|vu: u64, h: u64| #[trigger] self.spec_order().contains((vu, h)) <==> self.spec_pending().contains_key(h)
                        && self.spec_pending()[h].valid_until == vu by {
                        assert(old(self).spec_order().contains((vu, h)) <==> old(self).spec_pending().contains_key(h)
                            && old(self).spec_pending()[h].valid_until == vu);
                        assert(old(self).spec_order() == order_before);
                    }
                    assert(self.spec_pending().dom().finite());
                    assert(self.spec_retry_total() == map_sum(retry_sizes(self.spec_pending())));
                    assert(self.spec_retry_total() <= self.spec_max_retry_bytes());
                    assert(self.spec_leader_total() == map_sum(leader_sizes(self.spec_leader_buffer())));
                }
            },
        }
    }

    /// Take a submitted transaction `tx` with `hash`, counting `size` bytes
    /// against a block and `encoded_size` on the wire, into the retry buffer
    /// until the view `ttl` views from now: unless it is already waiting,
    /// can never fit the current block size or a message of it, or would
    /// overflow the buffer.
    pub fn on_submit_transaction(&mut self, tx: T, hash: u64, size: u64, encoded_size: u64) -> (r: Submitted)
        requires
            old(self).wf(),
        ensures
            final(self).wf(),
            final(self).spec_leader_buffer() == old(self).spec_leader_buffer(),
            final(self).spec_dedups() == old(self).spec_dedups(),
            final(self).spec_current_view() == old(self).spec_current_view(),
            final(self).spec_calculations() == old(self).spec_calculations(),
            ({
                let max_bytes = size_at(old(self).spec_block_sizes(), old(self).spec_current_view());
                let max_encoded = if spec_message_limit(max_bytes) >= 4096 { spec_message_limit(max_bytes) - 4096 } else { 0 };
                &&& old(self).spec_pending().contains_key(hash) ==> r is Duplicate
                &&& !old(self).spec_pending().contains_key(hash) && (size > max_bytes || encoded_size > max_encoded) ==> r is TooLarge
                &&& !old(self).spec_pending().contains_key(hash) && size <= max_bytes && encoded_size <= max_encoded
                    && old(self).spec_retry_total() + size > old(self).spec_max_retry_bytes() ==> r is BufferFull
                &&& !(r is Accepted) ==> final(self).spec_pending() == old(self).spec_pending()
                &&& !old(self).spec_pending().contains_key(hash) && size <= max_bytes && encoded_size <= max_encoded
                    && old(self).spec_retry_total() + size <= old(self).spec_max_retry_bytes() ==> r is Accepted
                    && final(self).spec_pending() == old(self).spec_pending().insert(
                    hash,
                    RetryEntry {
                        tx,
                        valid_until: if old(self).spec_current_view() + old(self).spec_ttl() <= u64::MAX {
                            (old(self).spec_current_view() + old(self).spec_ttl()) as u64
                        } else {
                            u64::MAX
                        },
                        size,
                        encoded_size,
                    },
                ) && final(self).spec_retry_total() == old(self).spec_retry_total() + size
            }),
    {
        if self.retry_pending.contains_key(&hash) {
            return Submitted::Duplicate;
        }
        let max_bytes = self.block_size(self.current_view);
        if size > max_bytes || encoded_size > forward_budget(message_limit(max_bytes)) {
            return Submitted::TooLarge;
        }
        if size > self.config.max_retry_bytes - self.retry_total_bytes {
            return Submitted::BufferFull;
        }
        let valid_until = self.current_view.saturating_add(self.config.ttl);
        let ghost before = self.retry_pending@;
        let entry = RetryEntry { tx, valid_until, size, encoded_size };
        self.retry_total_bytes = self.retry_total_bytes + size;
        self.retry_order.insert((valid_until, hash));
        self.retry_pending.insert(hash, entry);
        proof {
            assert(retry_sizes(before).dom() =~= before.dom());
            lemma_map_sum_insert(retry_sizes(before), hash, size);
            assert(retry_sizes(self.retry_pending@) =~= retry_sizes(before).insert(hash, size));
            assert forall|vu: u64, h: u64| #[trigger] self.spec_order().contains((vu, h)) <==> self.spec_pending().contains_key(h)
                && self.spec_pending()[h].valid_until == vu by {
                assert(old(self).spec_order().contains((vu, h)) <==> old(self).spec_pending().contains_key(h)
                    && old(self).spec_pending()[h].valid_until == vu);
                assert(self.spec_order() == old(self).spec_order().insert((valid_until, hash)));
                if h == hash {
                    if self.spec_order().contains((vu, h)) && vu != valid_until {
                        assert(old(self).spec_order().contains((vu, h)));
                    }
                }
            }
        }
        Submitted::Accepted
    }

    /// The number of waiting transactions and their bytes.
    pub fn outstanding_transactions(&self) -> (r: (usize, u64))
        requires
            self.wf(),
        ensures
            r.0 == self.spec_pending().len(),
            r.1 == self.spec_retry_total(),
    {
        (self.retry_pending.len(), self.retry_total_bytes)
    }

    /// The waiting transaction with `hash`, if any.
    pub fn pending_transaction(&self, hash: u64) -> (r: Option<&T>)
        ensures
            r is Some <==> self.spec_pending().contains_key(hash),
            r matches Some(t) ==> *t == self.spec_pending()[hash].tx,
    {
        match self.retry_pending.get(&hash) {
            Some(e) => Some(&e.tx),
            None => None,
        }
    }

    /// Whether a recently included block holds `hash`.
    fn in_dedups(&self, hash: u64) -> (r: bool)
        ensures
            r == included(self.spec_dedups(), hash),
    {
        let ghost all = vstd::std_specs::btree::spec_keys_iter(&self.dedups).remaining();
        for k in it: self.dedups.keys()
            invariant
                it.seq() == all,
                all.unref().to_set() == self.dedups@.dom(),
                forall|i: int| 0 <= i < it.index() ==> !self.dedups@[*#[trigger] all[i]]@.contains(hash),
        {
            assert(*k == *all[it.index() as int]);
            let found = match self.dedups.get(k) {
                Some(set) => set.contains(&hash),
                None => false,
            };
            if found {
                proof {
                    assert(all.unref().contains(*k));
                    assert(self.spec_dedups().contains_key(*k) && self.spec_dedups()[*k].contains(hash));
                }
                return true;
            }
        }
        proof {
            assert forall|v: u64| !(self.spec_dedups().contains_key(v) && #[trigger] self.spec_dedups()[v].contains(hash)) by {
                if self.spec_dedups().contains_key(v) && self.spec_dedups()[v].contains(hash) {
                    assert(all.unref().to_set().contains(v));
                    let i = choose|i: int| 0 <= i < all.unref().len() && all.unref()[i] == v;
                    assert(*all[i] == v);
                }
            }
        }
        false
    }

    /// Take transactions forwarded for `view` into the leader buffer, each
    /// with its hash and size, in order: skipping one a recent block
    /// included, one already buffered, and one that would take the buffer
    /// past the block size at `view`.
    pub fn on_transactions(&mut self, view: u64, txs: Vec<(T, u64, u64)>)
        requires
            old(self).wf(),
        ensures
            final(self).wf(),
            (final(self).spec_leader_buffer(), final(self).spec_leader_total() as int) == buffered(
                old(self).spec_leader_buffer(),
                old(self).spec_leader_total() as int,
                old(self).spec_dedups(),
                size_at(old(self).spec_block_sizes(), view),
                txs@,
            ),
            final(self).spec_pending() == old(self).spec_pending(),
            final(self).spec_retry_total() == old(self).spec_retry_total(),
            final(self).spec_dedups() == old(self).spec_dedups(),
            final(self).spec_current_view() == old(self).spec_current_view(),
            final(self).spec_calculations() == old(self).spec_calculations(),
            final(self).spec_block_sizes() == old(self).spec_block_sizes(),
    {
        let max_bytes = self.block_size(view);
        let ghost all = txs@;
        let ghost init = (self.leader_buffer@, self.leader_total_bytes as int);
        for item in it: txs.into_iter()
            invariant
                it.seq() == all,
                self.wf(),
                (self.leader_buffer@, self.leader_total_bytes as int) == buffered(
                    init.0,
                    init.1,
                    old(self).spec_dedups(),
                    max_bytes,
                    all.take(it.index() as int),
                ),
                self.retry_pending@ == old(self).retry_pending@,
                self.retry_order@ == old(self).retry_order@,
                self.retry_total_bytes == old(self).retry_total_bytes,
                self.spec_dedups() == old(self).spec_dedups(),
                self.current_view == old(self).current_view,
                self.calculations@ == old(self).calculations@,
                self.config.block_sizes@ == old(self).config.block_sizes@,
                self.config.max_retry_bytes == old(self).config.max_retry_bytes,
                max_bytes == size_at(old(self).spec_block_sizes(), view),
        {
            let ghost idx = it.index() as int;
            assert(all.take(idx + 1).drop_last() =~= all.take(idx));
            assert(all.take(idx + 1).last() == item);
            let (tx, hash, size) = item;
            let skip = self.in_dedups(hash) || self.leader_buffer.contains_key(&hash);
            let fits = match self.leader_total_bytes.checked_add(size) {
                Some(t) => t <= max_bytes,
                None => false,
            };
            if !skip && fits {
                let ghost before = self.leader_buffer@;
                proof {
                    assert(leader_sizes(before).dom() =~= before.dom());
                    lemma_map_sum_insert(leader_sizes(before), hash, size);
                    assert(leader_sizes(before.insert(hash, (tx, size))) =~= leader_sizes(before).insert(hash, size));
                }
                self.leader_total_bytes = self.leader_total_bytes + size;
                self.leader_buffer.insert(hash, (tx, size));
            }
        }
        proof {
            assert(all.take(all.len() as int) =~= all);
        }
    }

    /// Note that the block of `view` included the transactions `hashes`:
    /// the leader buffer drops them, and they are remembered for the
    /// dedup window behind the current view, which is all that is kept.
    fn mark_included(&mut self, view: u64, hashes: Vec<u64>)
        requires
            old(self).wf(),
        ensures
            final(self).wf(),
            final(self).spec_leader_buffer() == old(self).spec_leader_buffer().remove_keys(hashes@.to_set()),
            final(self).spec_dedups() == dedups_after(old(self).spec_dedups(), view, hashes@.to_set(), window_start(old(self).spec_current_view(), old(self).spec_dedup_window())),
            final(self).spec_pending() == old(self).spec_pending(),
            final(self).spec_retry_total() == old(self).spec_retry_total(),
            final(self).spec_current_view() == old(self).spec_current_view(),
            final(self).spec_calculations() == old(self).spec_calculations(),
            final(self).spec_block_sizes() == old(self).spec_block_sizes(),
            final(self).spec_max_retry_bytes() == old(self).spec_max_retry_bytes(),
            final(self).spec_ttl() == old(self).spec_ttl(),
            final(self).spec_dedup_window() == old(self).spec_dedup_window(),
    {
        let mut i: usize = 0;
        while i < hashes.len()
            invariant
                0 <= i <= hashes.len(),
                self.wf(),
                self.leader_buffer@ == old(self).leader_buffer@.remove_keys(hashes@.take(i as int).to_set()),
                self.retry_pending@ == old(self).retry_pending@,
                self.retry_order@ == old(self).retry_order@,
                self.retry_total_bytes == old(self).retry_total_bytes,
                self.dedups@ == old(self).dedups@,
                self.current_view == old(self).current_view,
                self.calculations@ == old(self).calculations@,
                self.config.block_sizes@ == old(self).config.block_sizes@,
                self.config.max_retry_bytes == old(self).config.max_retry_bytes,
                self.config.ttl == old(self).config.ttl,
                self.config.dedup_window_size == old(self).config.dedup_window_size,
            decreases hashes.len() - i,
        {
            let hash = hashes[i];
            let ghost before = self.leader_buffer@;
            match self.leader_buffer.remove(&hash) {
                Some(entry) => {
                    proof {
                        assert(leader_sizes(before).dom() =~= before.dom());
                        lemma_map_sum_remove(leader_sizes(before), hash);
                        assert(leader_sizes(before).remove(hash) =~= leader_sizes(self.leader_buffer@));
                        assert(leader_sizes(self.leader_buffer@).dom() =~= self.leader_buffer@.dom());
                        lemma_map_sum_nonneg(leader_sizes(self.leader_buffer@));
                    }
                    self.leader_total_bytes = self.leader_total_bytes - entry.1;
                    proof {
                        assert(self.spec_leader_total() == map_sum(leader_sizes(self.spec_leader_buffer())));
                        assert(self.spec_leader_buffer().dom().finite());
                        assert(order_matches(self.spec_order(), self.spec_pending()));
                        assert(self.spec_retry_total() == map_sum(retry_sizes(self.spec_pending())));
                    }
                },
                None => {
                    proof {
                        assert(self.leader_buffer@ == before);
                    }
                },
            }
            proof {
                assert(hashes@.take(i as int + 1).to_set() =~= hashes@.take(i as int).to_set().insert(hash)) by {
                    assert(hashes@.take(i as int + 1) =~= hashes@.take(i as int).push(hash));
                }
                assert(self.leader_buffer@ =~= old(self).leader_buffer@.remove_keys(hashes@.take(i as int + 1).to_set()));
            }
            i = i + 1;
        }
        proof {
            assert(hashes@.take(hashes.len() as int) =~= hashes@);
        }
        let lower_bound = self.current_view.saturating_sub(self.config.dedup_window_size);
        if view >= lower_bound {
            let mut set = match self.dedups.remove(&view) {
                Some(s) => s,
                None => BTreeSet::new(),
            };
            let ghost start = set@;
            let mut j: usize = 0;
            while j < hashes.len()
                invariant
                    0 <= j <= hashes.len(),
                    set@ == start.union(hashes@.take(j as int).to_set()),
                decreases hashes.len() - j,
            {
                set.insert(hashes[j]);
                proof {
                    assert(hashes@.take(j as int + 1) =~= hashes@.take(j as int).push(hashes@[j as int]));
                    assert(set@ =~= start.union(hashes@.take(j as int + 1).to_set()));
                }
                j = j + 1;
            }
            proof {
                assert(hashes@.take(hashes.len() as int) =~= hashes@);
            }
            self.dedups.insert(view, set);
        }
        let ghost before = self.spec_dedups();
        crate::collections::map_retain_from(&mut self.dedups, lower_bound);
        proof {
            assert(self.spec_dedups() =~= dedups_after(old(self).spec_dedups(), view, hashes@.to_set(), window_start(old(self).spec_current_view(), old(self).spec_dedup_window())));
        }
    }

    /// A manifest names the transactions a block of `view` included.
    pub fn on_dedup_manifest(&mut self, view: u64, hashes: Vec<u64>)
        requires
            old(self).wf(),
        ensures
            final(self).wf(),
            final(self).spec_leader_buffer() == old(self).spec_leader_buffer().remove_keys(hashes@.to_set()),
            final(self).spec_dedups() == dedups_after(old(self).spec_dedups(), view, hashes@.to_set(), window_start(old(self).spec_current_view(), old(self).spec_dedup_window())),
            final(self).spec_pending() == old(self).spec_pending(),
            final(self).spec_current_view() == old(self).spec_current_view(),
    {
        self.mark_included(view, hashes);
    }

    /// For every block this node proposes or reconstructs: stop retrying its
    /// transactions, and drop copies that reach the leader buffer later.
    pub fn on_block_reconstructed(&mut self, view: u64, hashes: Vec<u64>)
        requires
            old(self).wf(),
        ensures
            final(self).wf(),
            final(self).spec_pending() == old(self).spec_pending().remove_keys(hashes@.to_set()),
            final(self).spec_leader_buffer() == old(self).spec_leader_buffer().remove_keys(hashes@.to_set()),
            final(self).spec_dedups() == dedups_after(old(self).spec_dedups(), view, hashes@.to_set(), window_start(old(self).spec_current_view(), old(self).spec_dedup_window())),
            final(self).spec_current_view() == old(self).spec_current_view(),
    {
        let mut i: usize = 0;
        while i < hashes.len()
            invariant
                0 <= i <= hashes.len(),
                self.wf(),
                self.retry_pending@ == old(self).retry_pending@.remove_keys(hashes@.take(i as int).to_set()),
                self.leader_buffer@ == old(self).leader_buffer@,
                self.spec_dedups() == old(self).spec_dedups(),
                self.current_view == old(self).current_view,
                self.config.dedup_window_size == old(self).config.dedup_window_size,
            decreases hashes.len() - i,
        {
            let hash = hashes[i];
            self.remove_pending(hash);
            proof {
                assert(hashes@.take(i as int + 1).to_set() =~= hashes@.take(i as int).to_set().insert(hash)) by {
                    assert(hashes@.take(i as int + 1) =~= hashes@.take(i as int).push(hash));
                }
                assert(self.retry_pending@ =~= old(self).retry_pending@.remove_keys(hashes@.take(i as int + 1).to_set()));
            }
            i = i + 1;
        }
        proof {
            assert(hashes@.take(hashes.len() as int) =~= hashes@);
            assert(self.spec_dedups() == old(self).spec_dedups());
        }
        self.mark_included(view, hashes);
    }

    /// The hashes of the waiting transactions.
    fn pending_hashes(&self) -> (r: Vec<u64>)
        ensures
            forall|h: u64| r@.contains(h) <==> self.spec_pending().contains_key(h),
    {
        let mut out: Vec<u64> = Vec::new();
        let ghost all = vstd::std_specs::btree::spec_keys_iter(&self.retry_pending).remaining();
        for k in it: self.retry_pending.keys()
            invariant
                it.seq() == all,
                all.unref().to_set() == self.retry_pending@.dom(),
                forall|x: u64| out@.contains(x) <==> exists|j: int| 0 <= j < it.index() && *all[j] == x,
        {
            let ghost idx = it.index() as int;
            assert(*k == *all[idx]);
            let ghost old_out = out@;
            out.push(*k);
            proof {
                assert forall|x: u64| out@.contains(x) <==> exists|j: int| 0 <= j < idx + 1 && *all[j] == x by {
                    if x == *k {
                        assert(out@[out@.len() - 1] == x);
                    } else {
                        if out@.contains(x) {
                            let y = choose|y: int| 0 <= y < out@.len() && out@[y] == x;
                            assert(old_out[y] == x);
                        }
                        if exists|j: int| 0 <= j < idx + 1 && *all[j] == x {
                            let j = choose|j: int| 0 <= j < idx + 1 && *all[j] == x;
                            let y = choose|y: int| 0 <= y < old_out.len() && old_out[y] == x;
                            assert(out@[y] == x);
                        }
                    }
                }
            }
        }
        proof {
            assert forall|x: u64| out@.contains(x) <==> self.spec_pending().contains_key(x) by {
                if self.spec_pending().contains_key(x) {
                    assert(all.unref().to_set().contains(x));
                    let j = choose|j: int| 0 <= j < all.unref().len() && all.unref()[j] == x;
                    assert(*all[j] == x);
                }
                if out@.contains(x) {
                    let j = choose|j: int| 0 <= j < all.len() && *all[j] == x;
                    assert(all.unref()[j] == x);
                    assert(all.unref().to_set().contains(x));
                }
            }
        }
        out
    }

    /// The hashes of the waiting transactions whose last view is before `view`.
    fn expired_hashes(&self, view: u64) -> (r: Vec<u64>)
        ensures
            forall|h: u64| r@.contains(h) <==> self.spec_pending().contains_key(h) && self.spec_pending()[h].valid_until < view,
    {
        let hashes = self.pending_hashes();
        let mut expired: Vec<u64> = Vec::new();
        let mut i: usize = 0;
        while i < hashes.len()
            invariant
                0 <= i <= hashes.len(),
                forall|h: u64| hashes@.contains(h) <==> self.spec_pending().contains_key(h),
                forall|h: u64| expired@.contains(h) <==> (exists|j: int| 0 <= j < i && hashes@[j] == h)
                    && self.spec_pending().contains_key(h) && self.spec_pending()[h].valid_until < view,
            decreases hashes.len() - i,
        {
            let h = hashes[i];
            assert(hashes@.contains(h));
            let vu = match self.retry_pending.get(&h) {
                Some(e) => e.valid_until,
                None => view,
            };
            assert(vu == self.spec_pending()[h].valid_until);
            let ghost old_exp = expired@;
            if vu < view {
                expired.push(h);
            }
            proof {
                assert forall|x: u64| expired@.contains(x) <==> (exists|j: int| 0 <= j < i + 1 && hashes@[j] == x)
                    && self.spec_pending().contains_key(x) && self.spec_pending()[x].valid_until < view by {
                    if expired@.contains(x) && x != h {
                        let y = choose|y: int| 0 <= y < expired@.len() && expired@[y] == x;
                        assert(old_exp[y] == x);
                    }
                    if old_exp.contains(x) {
                        let y = choose|y: int| 0 <= y < old_exp.len() && old_exp[y] == x;
                        assert(expired@[y] == x);
                    }
                    if x == h && vu < view {
                        assert(expired@[expired@.len() - 1] == x);
                    }
                    if exists|j: int| 0 <= j < i + 1 && hashes@[j] == x {
                        let j = choose|j: int| 0 <= j < i + 1 && hashes@[j] == x;
                        if j < i {
                            assert(exists|j: int| 0 <= j < i && hashes@[j] == x);
                        }
                    }
                }
            }
            i = i + 1;
        }
        proof {
            assert forall|x: u64| expired@.contains(x) <==> self.spec_pending().contains_key(x) && self.spec_pending()[x].valid_until < view by {
                if self.spec_pending().contains_key(x) {
                    assert(hashes@.contains(x));
                    let j = choose|j: int| 0 <= j < hashes@.len() && hashes@[j] == x;
                }
            }
        }
        expired
    }

    /// Drop from the retry buffer every transaction `keep` rejects.
    fn drop_pending(&mut self, drop: Vec<u64>)
        requires
            old(self).wf(),
        ensures
            final(self).wf(),
            final(self).spec_pending() == old(self).spec_pending().remove_keys(drop@.to_set()),
            final(self).spec_leader_buffer() == old(self).spec_leader_buffer(),
            final(self).spec_leader_total() == old(self).spec_leader_total(),
            final(self).spec_dedups() == old(self).spec_dedups(),
            final(self).spec_current_view() == old(self).spec_current_view(),
            final(self).spec_calculations() == old(self).spec_calculations(),
            final(self).spec_block_sizes() == old(self).spec_block_sizes(),
            final(self).spec_max_retry_bytes() == old(self).spec_max_retry_bytes(),
            final(self).spec_ttl() == old(self).spec_ttl(),
            final(self).spec_dedup_window() == old(self).spec_dedup_window(),
    {
        let mut i: usize = 0;
        while i < drop.len()
            invariant
                0 <= i <= drop.len(),
                self.wf(),
                self.spec_pending() == old(self).spec_pending().remove_keys(drop@.take(i as int).to_set()),
                self.spec_leader_buffer() == old(self).spec_leader_buffer(),
                self.spec_leader_total() == old(self).spec_leader_total(),
                self.spec_dedups() == old(self).spec_dedups(),
                self.spec_current_view() == old(self).spec_current_view(),
                self.spec_calculations() == old(self).spec_calculations(),
                self.spec_block_sizes() == old(self).spec_block_sizes(),
                self.spec_max_retry_bytes() == old(self).spec_max_retry_bytes(),
                self.spec_ttl() == old(self).spec_ttl(),
                self.spec_dedup_window() == old(self).spec_dedup_window(),
            decreases drop.len() - i,
        {
            let hash = drop[i];
            self.remove_pending(hash);
            proof {
                assert(drop@.take(i as int + 1).to_set() =~= drop@.take(i as int).to_set().insert(hash)) by {
                    assert(drop@.take(i as int + 1) =~= drop@.take(i as int).push(hash));
                }
                assert(self.spec_pending() =~= old(self).spec_pending().remove_keys(drop@.take(i as int + 1).to_set()));
            }
            i = i + 1;
        }
        proof {
            assert(drop@.take(drop.len() as int) =~= drop@);
        }
    }

    /// The hashes of waiting transactions that together fit `max_bytes` and
    /// `max_encoded`, taken oldest first greedily, and those of the ones
    /// that cannot fit at all.
    fn choose_batch(&self, max_bytes: u64, max_encoded: u64) -> (r: (Vec<u64>, Vec<u64>))
        requires
            self.wf(),
        ensures
            r.0@.no_duplicates(),
            forall|i: int| 0 <= i < r.0.len() ==> self.spec_pending().contains_key(#[trigger] r.0@[i])
                && self.spec_pending()[r.0@[i]].size <= max_bytes && self.spec_pending()[r.0@[i]].encoded_size <= max_encoded,
            batch_bytes(self.spec_pending(), r.0@) <= max_bytes,
            batch_encoded(self.spec_pending(), r.0@) <= max_encoded,
            forall|h: u64| r.1@.contains(h) <==> self.spec_pending().contains_key(h) && !(self.spec_pending()[h].size <= max_bytes
                && self.spec_pending()[h].encoded_size <= max_encoded),
            exists|keys: Seq<(u64, u64)>| #![auto]
                increasing_pairs(keys) && keys.to_set() == order_of(self.spec_pending())
                && r.0@ == greedy(self.spec_pending(), keys, max_bytes as int, max_encoded as int).0,
    {
        let ghost order_live = self.spec_order();
        let ghost live = self.spec_pending();
        // Choose the batch, oldest first, and find the misfits.
        let mut batch: Vec<u64> = Vec::new();
        let mut unfit: Vec<u64> = Vec::new();
        let mut bytes: u64 = 0;
        let mut encoded: u64 = 0;
        let ghost all = vstd::std_specs::btree::spec_btree_keys_iter(&self.retry_order).remaining();
        proof {
            crate::collections::lemma_increasing_pairs(all);
        }
        for key in it: self.retry_order.iter()
            invariant
                it.seq() == all,
                all.unref().to_set() == self.retry_order@,
                all.no_duplicates(),
                greedy(live, all.unref().take(it.index() as int), max_bytes as int, max_encoded as int) == (batch@, bytes as int, encoded as int),
                self.wf(),
                self.spec_pending() == live,
                order_live == self.spec_order(),
                bytes == batch_bytes(live, batch@),
                encoded == batch_encoded(live, batch@),
                bytes <= max_bytes,
                encoded <= max_encoded,
                forall|x: int| 0 <= x < batch.len() ==> live.contains_key(#[trigger] batch@[x])
                    && live[batch@[x]].size <= max_bytes && live[batch@[x]].encoded_size <= max_encoded,
                forall|x: int| 0 <= x < batch.len() ==> exists|j: int| 0 <= j < it.index() && #[trigger] all[j].1 == #[trigger] batch@[x],
                batch@.no_duplicates(),
                forall|h: u64| unfit@.contains(h) ==> live.contains_key(h) && !(live[h].size <= max_bytes
                    && live[h].encoded_size <= max_encoded),
                forall|j: int| 0 <= j < it.index() && live.contains_key(#[trigger] all[j].1) && !(live[all[j].1].size <= max_bytes
                    && live[all[j].1].encoded_size <= max_encoded) ==> unfit@.contains(all[j].1),
        {
            let ghost idx = it.index() as int;
            assert(*key == *all[idx]);
            assert(all.unref()[idx] == *key);
            assert(all.unref().take(idx + 1).drop_last() =~= all.unref().take(idx));
            assert(all.unref().take(idx + 1).last() == *key);
            assert(all.unref().contains(*key));
            assert(all.unref().to_set().contains(*key));
            assert(self.retry_order@.contains(*key));
            assert(self.spec_order().contains((key.0, key.1)));
            let hash = key.1;
            let (size, enc) = match self.retry_pending.get(&hash) {
                Some(e) => (e.size, e.encoded_size),
                None => (0, 0),
            };
            assert(live.contains_key(hash));
            if size > max_bytes || enc > max_encoded {
                let ghost old_unfit = unfit@;
                unfit.push(hash);
                proof {
                    assert forall|h: u64| unfit@.contains(h) implies live.contains_key(h) && !(live[h].size <= max_bytes
                        && live[h].encoded_size <= max_encoded) by {
                        if h != hash {
                            let y = choose|y: int| 0 <= y < unfit@.len() && unfit@[y] == h;
                            assert(old_unfit[y] == h);
                        }
                    }
                    assert forall|j: int| 0 <= j < idx + 1 && live.contains_key(#[trigger] all[j].1) && !(live[all[j].1].size <= max_bytes
                        && live[all[j].1].encoded_size <= max_encoded) implies unfit@.contains(all[j].1) by {
                        if j < idx {
                            let y = choose|y: int| 0 <= y < old_unfit.len() && old_unfit[y] == all[j].1;
                            assert(unfit@[y] == all[j].1);
                        } else {
                            assert(unfit@[unfit@.len() - 1] == hash);
                        }
                    }
                }
            } else if size <= max_bytes - bytes && enc <= max_encoded - encoded {
                proof {
                    assert(!batch@.contains(hash)) by {
                        if batch@.contains(hash) {
                            let x = choose|x: int| 0 <= x < batch@.len() && batch@[x] == hash;
                            let j = choose|j: int| 0 <= j < idx && #[trigger] all[j].1 == batch@[x];
                            assert(all.unref()[j] == *all[j]);
                            assert(all.unref().to_set().contains(*all[j]));
                            assert(self.spec_order().contains((all[j].0, all[j].1)));
                            assert(all[j].0 == live[hash].valid_until);
                            assert(all[idx].0 == live[hash].valid_until);
                            assert(*all[j] == *all[idx]);
                        }
                    }
                    lemma_batch_push(live, batch@, hash);
                }
                let ghost old_batch = batch@;
                bytes = bytes + size;
                encoded = encoded + enc;
                batch.push(hash);
                proof {
                    assert forall|x: int| 0 <= x < batch.len() implies exists|j: int| 0 <= j < idx + 1 && #[trigger] all[j].1 == #[trigger] batch@[x] by {
                        if x < old_batch.len() {
                            assert(batch@[x] == old_batch[x]);
                        } else {
                            assert(all[idx].1 == batch@[x]);
                        }
                    }
                }
            }
        }
        proof {
            assert(all.unref().take(all.len() as int) =~= all.unref());
            assert forall|k: (u64, u64)| order_of(live).contains(k) <==> self.spec_order().contains(k) by {
                assert(order_matches(order_live, live));
                assert(k == (k.0, k.1));
                assert(self.spec_order().contains((k.0, k.1)) <==> live.contains_key(k.1) && live[k.1].valid_until == k.0);
            }
            assert(order_of(live) =~= self.spec_order());
            assert(increasing_pairs(all.unref()));
        }
        proof {
            assert forall|h: u64| live.contains_key(h) && !(live[h].size <= max_bytes && live[h].encoded_size <= max_encoded)
                implies unfit@.contains(h) by {
                assert(order_matches(order_live, live));
                assert(order_live.contains((live[h].valid_until, h)));
                assert(all.unref().to_set().contains((live[h].valid_until, h)));
                let j = choose|j: int| 0 <= j < all.unref().len() && all.unref()[j] == (live[h].valid_until, h);
                assert(all[j].1 == h);
            }
        }
        (batch, unfit)
    }

    /// Move to `view`: transactions whose last view is past expire, and
    /// those that no longer fit a block or a message of the next view are
    /// dropped. Returns, for the next leader, the hashes of waiting
    /// transactions that together fit one block and one message of the next
    /// view (taken oldest first, greedily).
    #[verifier::spinoff_prover]
    pub fn on_view_changed(&mut self, view: u64) -> (r: Vec<u64>)
        requires
            old(self).wf(),
        ensures
            final(self).wf(),
            final(self).spec_current_view() == view,
            final(self).spec_pending() == fitting(
                live_after(old(self).spec_pending(), view),
                forward_max_bytes(old(self).spec_block_sizes(), view),
                forward_max_encoded(old(self).spec_block_sizes(), view),
            ),
            exists|keys: Seq<(u64, u64)>| #![auto]
                increasing_pairs(keys) && keys.to_set() == order_of(live_after(old(self).spec_pending(), view))
                && r@ == greedy(
                    live_after(old(self).spec_pending(), view),
                    keys,
                    forward_max_bytes(old(self).spec_block_sizes(), view) as int,
                    forward_max_encoded(old(self).spec_block_sizes(), view),
                ).0,
            r@.no_duplicates(),
            forall|i: int| 0 <= i < r.len() ==> final(self).spec_pending().contains_key(#[trigger] r@[i]),
            batch_bytes(final(self).spec_pending(), r@) <= forward_max_bytes(old(self).spec_block_sizes(), view),
            batch_encoded(final(self).spec_pending(), r@) <= forward_max_encoded(old(self).spec_block_sizes(), view),
            final(self).spec_leader_buffer() == old(self).spec_leader_buffer(),
            final(self).spec_dedups() == old(self).spec_dedups(),
            final(self).spec_calculations() == old(self).spec_calculations(),
            final(self).spec_block_sizes() == old(self).spec_block_sizes(),
    {
        let ghost sizes = old(self).spec_block_sizes();
        // Expire.
        let expired = self.expired_hashes(view);
        let ghost pending0 = self.spec_pending();
        self.drop_pending(expired);
        let ghost live = self.spec_pending();
        proof {
            lemma_expired_live(pending0, live, expired@, view);
        }
        let next = view.saturating_add(1);
        let max_bytes = self.block_size(next);
        let limit = message_limit(max_bytes);
        let max_encoded = forward_budget(limit);
        proof {
            lemma_forward_limits(sizes, view, next, max_bytes, limit, max_encoded);
        }
        let (batch, unfit) = self.choose_batch(max_bytes, max_encoded);
        self.drop_pending(unfit);
        proof {
            lemma_unfit_dropped(live, self.spec_pending(), unfit@, max_bytes, max_encoded);
            lemma_batch_restrict(live, self.spec_pending(), batch@);
        }
        self.current_view = view;
        batch
    }

    /// Start building the block of `view` on the parent with leaf commitment
    /// `parent`, unless that build is under way: the leader buffer is drained
    /// into it, hashes with transactions.
    pub fn request_block(&mut self, view: u64, parent: u64) -> (r: Option<Vec<(u64, T)>>)
        requires
            old(self).wf(),
        ensures
            final(self).wf(),
            old(self).spec_calculations().contains((view, parent)) ==> r is None
                && final(self).spec_leader_buffer() == old(self).spec_leader_buffer()
                && final(self).spec_calculations() == old(self).spec_calculations(),
            !old(self).spec_calculations().contains((view, parent)) ==> {
                &&& r matches Some(txs) && txs.len() == old(self).spec_leader_buffer().len()
                    && (forall|i: int| 0 <= i < txs.len() ==> old(self).spec_leader_buffer().contains_key(#[trigger] txs@[i].0)
                        && old(self).spec_leader_buffer()[txs@[i].0].0 == txs@[i].1)
                    && (forall|i: int, j: int| 0 <= i < j < txs.len() ==> #[trigger] txs@[i].0 != #[trigger] txs@[j].0)
                &&& final(self).spec_leader_buffer() == Map::<u64, (T, u64)>::empty()
                &&& final(self).spec_leader_total() == 0
                &&& final(self).spec_calculations() == old(self).spec_calculations().insert((view, parent))
            },
            final(self).spec_pending() == old(self).spec_pending(),
            final(self).spec_dedups() == old(self).spec_dedups(),
            final(self).spec_current_view() == old(self).spec_current_view(),
    {
        if self.calculations.contains(&(view, parent)) {
            return None;
        }
        let mut buffer: BTreeMap<u64, (T, u64)> = BTreeMap::new();
        std::mem::swap(&mut buffer, &mut self.leader_buffer);
        self.leader_total_bytes = 0;
        self.calculations.insert((view, parent));
        proof {
            assert(leader_sizes(self.leader_buffer@) =~= Map::<u64, u64>::empty());
        }
        let ghost orig = buffer@;
        let keys = crate::block::buffer_keys(&buffer);
        proof {
            assert forall|j: int| 0 <= j < keys.len() implies buffer@.contains_key(#[trigger] keys@[j]) by {
                assert(keys@.contains(keys@[j]));
            }
        }
        let mut out: Vec<(u64, T)> = Vec::new();
        let mut i: usize = 0;
        while i < keys.len()
            invariant
                0 <= i <= keys.len(),
                keys@.no_duplicates(),
                keys@.len() == orig.len(),
                forall|h: u64| keys@.contains(h) <==> orig.contains_key(h),
                out.len() == i,
                forall|x: int| 0 <= x < out.len() ==> orig.contains_key(#[trigger] out@[x].0) && orig[out@[x].0].0 == out@[x].1
                    && out@[x].0 == keys@[x],
                forall|j: int| i <= j < keys.len() ==> buffer@.contains_key(#[trigger] keys@[j]) && buffer@[keys@[j]] == orig[keys@[j]],
            decreases keys.len() - i,
        {
            let h = keys[i];
            assert(buffer@.contains_key(keys@[i as int]));
            assert(keys@.contains(h));
            match buffer.remove(&h) {
                Some((tx, _)) => out.push((h, tx)),
                None => {},
            }
            proof {
                assert forall|j: int| i + 1 <= j < keys.len() implies buffer@.contains_key(#[trigger] keys@[j])
                    && buffer@[keys@[j]] == orig[keys@[j]] by {
                    assert(keys@[j] != keys@[i as int]);
                }
            }
            i = i + 1;
        }
        proof {
            assert forall|x: int, y: int| 0 <= x < y < out.len() implies #[trigger] out@[x].0 != #[trigger] out@[y].0 by {
                assert(out@[x].0 == keys@[x]);
                assert(out@[y].0 == keys@[y]);
            }
        }
        Some(out)
    }

    /// Stop the builds of views before `view`.
    pub fn gc(&mut self, view: u64)
        requires
            old(self).wf(),
        ensures
            final(self).wf(),
            final(self).spec_calculations() == old(self).spec_calculations().filter(|k: (u64, u64)| k.0 >= view),
            final(self).spec_pending() == old(self).spec_pending(),
            final(self).spec_leader_buffer() == old(self).spec_leader_buffer(),
            final(self).spec_dedups() == old(self).spec_dedups(),
            final(self).spec_current_view() == old(self).spec_current_view(),
    {
        crate::collections::pair_set_retain_from(&mut self.calculations, view);
    }
}

proof fn lemma_expired_live<T>(pending0: Map<u64, RetryEntry<T>>, live: Map<u64, RetryEntry<T>>, expired: Seq<u64>, view: u64)
    requires
        forall|h: u64| expired.contains(h) <==> pending0.contains_key(h) && pending0[h].valid_until < view,
        live == pending0.remove_keys(expired.to_set()),
    ensures
        live == live_after(pending0, view),
{
    reveal(live_after);
    assert(live =~= live_after(pending0, view));
}

proof fn lemma_forward_limits(sizes: Map<u64, u64>, view: u64, next: u64, max_bytes: u64, limit: usize, max_encoded: u64)
    requires
        next == (if view < u64::MAX { (view + 1) as u64 } else { view }),
        max_bytes == size_at(sizes, next),
        limit == spec_message_limit(max_bytes),
        max_encoded == (if limit >= 4096 { limit - 4096 } else { 0 }),
    ensures
        max_bytes == forward_max_bytes(sizes, view),
        max_encoded == forward_max_encoded(sizes, view),
{
    reveal(forward_max_bytes);
    reveal(forward_max_encoded);
}

proof fn lemma_unfit_dropped<T>(live: Map<u64, RetryEntry<T>>, kept: Map<u64, RetryEntry<T>>, unfit: Seq<u64>, max_bytes: u64, max_encoded: u64)
    requires
        forall|h: u64| unfit.contains(h) <==> live.contains_key(h) && !(live[h].size <= max_bytes && live[h].encoded_size <= max_encoded),
        kept == live.remove_keys(unfit.to_set()),
    ensures
        kept == fitting(live, max_bytes, max_encoded as int),
{
    reveal(fitting);
    assert(kept =~= fitting(live, max_bytes, max_encoded as int));
}

/// The waiting transactions still live in `view`.
#[verifier::opaque]
pub open spec fn live_after<T>(pending: Map<u64, RetryEntry<T>>, view: u64) -> Map<u64, RetryEntry<T>> {
    pending.restrict(pending.dom().filter(|h: u64| pending[h].valid_until >= view))
}

/// The transactions of `m` that fit a block of `max_bytes` and a message
/// carrying `max_encoded` bytes of transactions.
#[verifier::opaque]
pub open spec fn fitting<T>(m: Map<u64, RetryEntry<T>>, max_bytes: u64, max_encoded: int) -> Map<u64, RetryEntry<T>> {
    m.restrict(m.dom().filter(|h: u64| m[h].size <= max_bytes && m[h].encoded_size <= max_encoded))
}

/// The block size of the view after `view`.
#[verifier::opaque]
pub open spec fn forward_max_bytes(sizes: Map<u64, u64>, view: u64) -> u64 {
    size_at(sizes, if view < u64::MAX { (view + 1) as u64 } else { view })
}

/// The transaction bytes one message of the view after `view` carries.
#[verifier::opaque]
pub open spec fn forward_max_encoded(sizes: Map<u64, u64>, view: u64) -> int {
    let limit = spec_message_limit(forward_max_bytes(sizes, view));
    if limit >= 4096 { limit - 4096 } else { 0 }
}

/// The order holds a waiting transaction under its last view.
pub open spec fn old_order_matches<T>(order: Set<(u64, u64)>, pending: Map<u64, RetryEntry<T>>, h: u64) -> bool {
    pending.contains_key(h) ==> order.contains((pending[h].valid_until, h))
}


/// The pairs come in order of their first halves, then their second.
pub open spec fn increasing_pairs(keys: Seq<(u64, u64)>) -> bool {
    forall|i: int, j: int| 0 <= i < j < keys.len() ==> crate::collections::pair_lt(keys[i], keys[j])
}

/// The waiting transactions of `pending` as the retry order lists them: by
/// last view, then hash.
pub open spec fn order_of<T>(pending: Map<u64, RetryEntry<T>>) -> Set<(u64, u64)> {
    Set::new(|k: (u64, u64)| pending.contains_key(k.1) && pending[k.1].valid_until == k.0)
}

/// The batch taken from `pending` by going through `keys` in order and
/// taking each transaction that still fits within `max_bytes` block bytes
/// and `max_encoded` wire bytes; with the bytes taken of each kind.
pub open spec fn greedy<T>(pending: Map<u64, RetryEntry<T>>, keys: Seq<(u64, u64)>, max_bytes: int, max_encoded: int) -> (Seq<u64>, int, int)
    decreases keys.len(),
{
    if keys.len() == 0 {
        (Seq::empty(), 0, 0)
    } else {
        let (batch, bytes, encoded) = greedy(pending, keys.drop_last(), max_bytes, max_encoded);
        let h = keys.last().1;
        if bytes + pending[h].size <= max_bytes && encoded + pending[h].encoded_size <= max_encoded {
            (batch.push(h), bytes + pending[h].size, encoded + pending[h].encoded_size)
        } else {
            (batch, bytes, encoded)
        }
    }
}

/// The block bytes of the transactions `batch` of `pending`.
pub open spec fn batch_bytes<T>(pending: Map<u64, RetryEntry<T>>, batch: Seq<u64>) -> int
    decreases batch.len(),
{
    if batch.len() == 0 {
        0
    } else {
        batch_bytes(pending, batch.drop_last()) + pending[batch.last()].size
    }
}

/// The wire bytes of the transactions `batch` of `pending`.
pub open spec fn batch_encoded<T>(pending: Map<u64, RetryEntry<T>>, batch: Seq<u64>) -> int
    decreases batch.len(),
{
    if batch.len() == 0 {
        0
    } else {
        batch_encoded(pending, batch.drop_last()) + pending[batch.last()].encoded_size
    }
}

proof fn lemma_batch_push<T>(pending: Map<u64, RetryEntry<T>>, batch: Seq<u64>, h: u64)
    ensures
        batch_bytes(pending, batch.push(h)) == batch_bytes(pending, batch) + pending[h].size,
        batch_encoded(pending, batch.push(h)) == batch_encoded(pending, batch) + pending[h].encoded_size,
{
    assert(batch.push(h).drop_last() =~= batch);
}

/// The sums over a batch read only the batch's own entries.
proof fn lemma_batch_restrict<T>(a: Map<u64, RetryEntry<T>>, b: Map<u64, RetryEntry<T>>, batch: Seq<u64>)
    requires
        forall|i: int| 0 <= i < batch.len() ==> a.contains_key(#[trigger] batch[i]) && b.contains_key(batch[i])
            && a[batch[i]] == b[batch[i]],
    ensures
        batch_bytes(a, batch) == batch_bytes(b, batch),
        batch_encoded(a, batch) == batch_encoded(b, batch),
    decreases batch.len(),
{
    if batch.len() > 0 {
        assert(a.contains_key(batch[batch.len() - 1]));
        lemma_batch_restrict(a, b, batch.drop_last());
    }
}

/// The keys of a leader buffer, each once.
fn buffer_keys<T>(m: &BTreeMap<u64, (T, u64)>) -> (r: Vec<u64>)
    ensures
        r@.no_duplicates(),
        r@.len() == m@.len(),
        forall|h: u64| r@.contains(h) <==> m@.contains_key(h),
{
    let mut out: Vec<u64> = Vec::new();
    let ghost all = vstd::std_specs::btree::spec_keys_iter(m).remaining();
    for k in it: m.keys()
        invariant
            it.seq() == all,
            all.unref().to_set() == m@.dom(),
            all.no_duplicates(),
            all.len() == m@.len(),
            out@ == all.take(it.index() as int).map_values(|x: &u64| *x),
    {
        let ghost idx = it.index() as int;
        assert(*k == *all[idx]);
        out.push(*k);
        proof {
            assert(out@ =~= all.take(idx + 1).map_values(|x: &u64| *x));
        }
    }
    proof {
        assert(all.take(all.len() as int) =~= all);
        assert(out@ =~= all.unref());
        assert forall|h: u64| out@.contains(h) <==> m@.contains_key(h) by {
            if m@.contains_key(h) {
                assert(all.unref().to_set().contains(h));
            }
        }
        assert(out@.no_duplicates()) by {
            assert forall|i: int, j: int| 0 <= i < j < out@.len() implies out@[i] != out@[j] by {
                assert(all[i] != all[j]);
            }
        }
    }
    out
}

/// Whether a recently included block holds `hash`.
pub open spec fn included(dedups: Map<u64, Set<u64>>, hash: u64) -> bool {
    exists|v: u64| dedups.contains_key(v) && #[trigger] dedups[v].contains(hash)
}

/// The first view of the dedup window.
pub open spec fn window_start(current: u64, window: u64) -> u64 {
    if current >= window { (current - window) as u64 } else { 0 }
}

/// The included transactions remembered once `hashes` were included at
/// `view`: filed there if it lies in the window, and only the window kept.
pub open spec fn dedups_after(dedups: Map<u64, Set<u64>>, view: u64, hashes: Set<u64>, lower_bound: u64) -> Map<u64, Set<u64>> {
    let added = if view >= lower_bound {
        dedups.insert(view, (if dedups.contains_key(view) { dedups[view] } else { Set::empty() }).union(hashes))
    } else {
        dedups
    };
    added.restrict(added.dom().filter(|v: u64| v >= lower_bound))
}

/// The leader buffer and its bytes once the transactions `txs` are taken in
/// order, as [`BlockBuilder::on_transactions`] says.
pub open spec fn buffered<T>(buffer: Map<u64, (T, u64)>, total: int, dedups: Map<u64, Set<u64>>, max_bytes: u64, txs: Seq<(T, u64, u64)>) -> (Map<u64, (T, u64)>, int)
    decreases txs.len(),
{
    if txs.len() == 0 {
        (buffer, total)
    } else {
        let (b, t) = buffered(buffer, total, dedups, max_bytes, txs.drop_last());
        let (tx, hash, size) = txs.last();
        if included(dedups, hash) || b.contains_key(hash) || t + size > max_bytes {
            (b, t)
        } else {
            (b.insert(hash, (tx, size)), t + size)
        }
    }
}

} // verus!
