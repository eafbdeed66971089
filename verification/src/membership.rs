//! What the committee of each epoch says about this node: who leads a view,
//! and whether a key holds stake.
use std::collections::{BTreeMap, BTreeSet};
use vstd::prelude::*;
use vstd::std_specs::iter::IteratorSpec;

verus! {

broadcast use vstd::std_specs::btree::group_btree_axioms, vstd::laws_cmp::group_laws_cmp;

/// The answers of the epoch committees known so far. A question about an
/// epoch, or a view, the table does not cover has no answer, which callers
/// treat as "not the leader" and "not staked".
pub struct Membership {
    leaders: BTreeMap<(u64, u64), u64>,
    stakers: BTreeSet<(u64, u64)>,
}

impl Membership {
    /// Leader of `(view, epoch)`, by key.
    pub closed spec fn leaders(&self) -> Map<(u64, u64), u64> {
        self.leaders@
    }

    /// `(epoch, key)` pairs of keys holding stake in an epoch.
    pub closed spec fn stakers(&self) -> Set<(u64, u64)> {
        self.stakers@
    }

    pub open spec fn spec_is_leader(&self, view: u64, epoch: u64, key: u64) -> bool {
        self.leaders().contains_key((view, epoch)) && self.leaders()[(view, epoch)] == key
    }

    pub open spec fn spec_has_stake(&self, epoch: u64, key: u64) -> bool {
        self.stakers().contains((epoch, key))
    }

    pub fn new() -> (r: Self)
        ensures
            r.leaders() == Map::<(u64, u64), u64>::empty(),
            r.stakers() == Set::<(u64, u64)>::empty(),
    {
        Membership { leaders: BTreeMap::new(), stakers: BTreeSet::new() }
    }

    pub fn set_leader(&mut self, view: u64, epoch: u64, key: u64)
        ensures
            final(self).leaders() == old(self).leaders().insert((view, epoch), key),
            final(self).stakers() == old(self).stakers(),
    {
        self.leaders.insert((view, epoch), key);
    }

    pub fn add_stake(&mut self, epoch: u64, key: u64)
        ensures
            final(self).stakers() == old(self).stakers().insert((epoch, key)),
            final(self).leaders() == old(self).leaders(),
    {
        self.stakers.insert((epoch, key));
    }

    pub fn leader(&self, view: u64, epoch: u64) -> (r: Option<u64>)
        ensures
            r == (if self.leaders().contains_key((view, epoch)) {
                Some(self.leaders()[(view, epoch)])
            } else {
                None
            }),
    {
        match self.leaders.get(&(view, epoch)) {
            Some(k) => Some(*k),
            None => None,
        }
    }

    pub fn is_leader(&self, view: u64, epoch: u64, key: u64) -> (r: bool)
        ensures
            r == self.spec_is_leader(view, epoch, key),
    {
        match self.leaders.get(&(view, epoch)) {
            Some(k) => *k == key,
            None => false,
        }
    }

    pub fn has_stake(&self, epoch: u64, key: u64) -> (r: bool)
        ensures
            r == self.spec_has_stake(epoch, key),
    {
        self.stakers.contains(&(epoch, key))
    }

    /// The keys holding stake in `epoch`, each once.
    pub fn stake_table(&self, epoch: u64) -> (r: Vec<u64>)
        ensures
            r@.no_duplicates(),
            forall|k: u64| r@.contains(k) <==> self.spec_has_stake(epoch, k),
    {
        let mut out: Vec<u64> = Vec::new();
        let ghost all = vstd::std_specs::btree::spec_btree_keys_iter(&self.stakers).remaining();
        for entry in it: self.stakers.iter()
            invariant
                it.seq() == all,
                all.unref().to_set() == self.stakers@,
                all.no_duplicates(),
                out@.no_duplicates(),
                forall|k: u64| #[trigger] out@.contains(k) <==> exists|j: int|
                    0 <= j < it.index() && *all[j] == (epoch, k),
        {
            let ghost idx = it.index() as int;
            let ghost old_out = out@;
            assert(*entry == *all[idx]);
            if entry.0 == epoch {
                proof {
                    if old_out.contains(entry.1) {
                        let j = choose|j: int| 0 <= j < idx && *all[j] == (epoch, entry.1);
                        assert(all[j] == all[idx]);
                    }
                }
                out.push(entry.1);
            }
            proof {
                assert forall|k: u64| #[trigger] out@.contains(k) <==> exists|j: int|
                    0 <= j < idx + 1 && *all[j] == (epoch, k) by {
                    if entry.0 == epoch && k == entry.1 {
                        assert(out@[out@.len() - 1] == k);
                        assert(*all[idx] == (epoch, k));
                    } else {
                        if out@.contains(k) {
                            let i = choose|i: int| 0 <= i < out@.len() && out@[i] == k;
                            if entry.0 == epoch {
                                assert(i < old_out.len());
                                assert(old_out[i] == k);
                            }
                            assert(old_out.contains(k));
                        }
                        if exists|j: int| 0 <= j < idx + 1 && *all[j] == (epoch, k) {
                            let j = choose|j: int| 0 <= j < idx + 1 && *all[j] == (epoch, k);
                            assert(j != idx);
                            assert(old_out.contains(k));
                            let i = choose|i: int| 0 <= i < old_out.len() && old_out[i] == k;
                            assert(out@[i] == k);
                        }
                    }
                }
            }
        }
        proof {
            assert forall|k: u64| out@.contains(k) <==> self.spec_has_stake(epoch, k) by {
                if self.stakers@.contains((epoch, k)) {
                    assert(all.unref().to_set().contains((epoch, k)));
                    let j = choose|j: int| 0 <= j < all.unref().len() && all.unref()[j] == (epoch, k);
                    assert(*all[j] == (epoch, k));
                }
                if out@.contains(k) {
                    let j = choose|j: int| 0 <= j < all.len() && *all[j] == (epoch, k);
                    assert(all.unref()[j] == (epoch, k));
                    assert(all.unref().to_set().contains((epoch, k)));
                }
            }
        }
        out
    }
}

} // verus!
