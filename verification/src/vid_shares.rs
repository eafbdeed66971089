//! Collecting payload shares until a payload can be recovered.
//!
//! Shares arrive per view, each with the key of the node it was dispersed
//! to and its weight. A view's first share fixes the weight needed for
//! recovery and whether the block's metadata is known. Each key counts once.
//! Once the weight is reached (and the metadata is known) recovery is
//! attempted; once a payload was recovered the view takes no more shares.
use std::collections::{BTreeMap, BTreeSet};
use vstd::prelude::*;

verus! {

broadcast use vstd::std_specs::btree::group_btree_axioms, vstd::laws_cmp::group_laws_cmp;

/// A view's shares so far.
pub struct ShareAccumulator {
    pub accumulated_weight: u64,
    pub seen_keys: BTreeSet<u64>,
    pub recovery_threshold: u64,
    pub has_metadata: bool,
}

/// A view's shares as values.
pub struct AccumulatorView {
    pub weight: u64,
    pub seen: Set<u64>,
    pub threshold: u64,
    pub has_metadata: bool,
}

impl ShareAccumulator {
    pub open spec fn view(&self) -> AccumulatorView {
        AccumulatorView {
            weight: self.accumulated_weight,
            seen: self.seen_keys@,
            threshold: self.recovery_threshold,
            has_metadata: self.has_metadata,
        }
    }

    /// Whether the shares weigh enough to recover the payload.
    pub fn has_enough_shares(&self) -> (r: bool)
        ensures
            r == (self.accumulated_weight >= self.recovery_threshold),
    {
        self.accumulated_weight >= self.recovery_threshold
    }
}

/// What became of a share.
#[derive(Clone, Copy, Debug, PartialEq, Eq, Structural)]
pub enum ShareOutcome {
    /// The view's payload was already recovered.
    Ignored,
    /// A share for the same key was already counted.
    Duplicate,
    /// Counted; not enough yet, or the metadata is missing.
    Accumulated,
    /// Counted, and recovery is to be attempted.
    Reconstruct,
}

pub struct VidShareCollector {
    accumulators: BTreeMap<u64, ShareAccumulator>,
    reconstructed: BTreeSet<u64>,
}

impl VidShareCollector {
    pub closed spec fn spec_accumulators(&self) -> Map<u64, AccumulatorView> {
        Map::new(|v: u64| self.accumulators@.contains_key(v), |v: u64| self.accumulators@[v].view())
    }

    pub closed spec fn spec_reconstructed(&self) -> Set<u64> {
        self.reconstructed@
    }

    /// The weight counted for `view` so far.
    pub open spec fn spec_weight(&self, view: u64) -> u64 {
        if self.spec_accumulators().contains_key(view) { self.spec_accumulators()[view].weight } else { 0 }
    }

    pub fn new() -> (r: Self)
        ensures
            r.spec_accumulators() == Map::<u64, AccumulatorView>::empty(),
            r.spec_reconstructed() == Set::<u64>::empty(),
    {
        let r = VidShareCollector { accumulators: BTreeMap::new(), reconstructed: BTreeSet::new() };
        assert(r.spec_accumulators() =~= Map::<u64, AccumulatorView>::empty());
        r
    }

    /// The weight counted for `view` so far.
    pub fn weight(&self, view: u64) -> (r: u64)
        ensures
            r == self.spec_weight(view),
    {
        match self.accumulators.get(&view) {
            Some(acc) => acc.accumulated_weight,
            None => 0,
        }
    }

    /// Take the share of `view` dispersed to `key`, weighing `weight`; the
    /// other two values are those the share carries for its view's first
    /// share.
    pub fn on_share(&mut self, view: u64, key: u64, weight: u64, recovery_threshold: u64, has_metadata: bool) -> (r: ShareOutcome)
        requires
            old(self).spec_weight(view) + weight <= u64::MAX,
        ensures
            final(self).spec_reconstructed() == old(self).spec_reconstructed(),
            old(self).spec_reconstructed().contains(view) ==> r == ShareOutcome::Ignored
                && final(self).spec_accumulators() == old(self).spec_accumulators(),
            !old(self).spec_reconstructed().contains(view) ==> {
                let acc = if old(self).spec_accumulators().contains_key(view) {
                    old(self).spec_accumulators()[view]
                } else {
                    AccumulatorView { weight: 0, seen: Set::empty(), threshold: recovery_threshold, has_metadata }
                };
                let counted = AccumulatorView { weight: (acc.weight + weight) as u64, seen: acc.seen.insert(key), ..acc };
                if acc.seen.contains(key) {
                    &&& r == ShareOutcome::Duplicate
                    &&& final(self).spec_accumulators() == old(self).spec_accumulators().insert(view, acc)
                } else {
                    &&& final(self).spec_accumulators() == old(self).spec_accumulators().insert(view, counted)
                    &&& r == if counted.weight >= counted.threshold && counted.has_metadata {
                        ShareOutcome::Reconstruct
                    } else {
                        ShareOutcome::Accumulated
                    }
                }
            },
    {
        if self.reconstructed.contains(&view) {
            return ShareOutcome::Ignored;
        }
        let mut acc = match self.accumulators.remove(&view) {
            Some(acc) => acc,
            None => ShareAccumulator {
                accumulated_weight: 0,
                seen_keys: BTreeSet::new(),
                recovery_threshold,
                has_metadata,
            },
        };
        if acc.seen_keys.contains(&key) {
            self.accumulators.insert(view, acc);
            proof {
                assert(self.spec_accumulators() =~= old(self).spec_accumulators().insert(view, acc.view()));
            }
            return ShareOutcome::Duplicate;
        }
        acc.seen_keys.insert(key);
        acc.accumulated_weight = acc.accumulated_weight + weight;
        let enough = acc.has_enough_shares() && acc.has_metadata;
        self.accumulators.insert(view, acc);
        proof {
            assert(self.spec_accumulators() =~= old(self).spec_accumulators().insert(view, acc.view()));
        }
        if enough {
            ShareOutcome::Reconstruct
        } else {
            ShareOutcome::Accumulated
        }
    }

    /// The payload of `view` was recovered: its shares are dropped and it
    /// takes no more.
    pub fn on_reconstructed(&mut self, view: u64)
        ensures
            final(self).spec_accumulators() == old(self).spec_accumulators().remove(view),
            final(self).spec_reconstructed() == old(self).spec_reconstructed().insert(view),
    {
        self.accumulators.remove(&view);
        self.reconstructed.insert(view);
        proof {
            assert(self.spec_accumulators() =~= old(self).spec_accumulators().remove(view));
        }
    }
}

} // verus!
