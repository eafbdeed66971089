//! When to ask for an epoch's DRB result, asking at most once at a time.
//!
//! At every epoch root the DRB of the epoch two ahead, the one that root
//! seeds, is requested. A request in flight or already answered is not made
//! again; a failed one may be.
use crate::data::Leaf;
use crate::schedule::{epoch_from_block_number, is_epoch_root, spec_epoch_from_block_number, spec_is_epoch_root};
use std::collections::BTreeSet;
use vstd::prelude::*;

verus! {

broadcast use vstd::std_specs::btree::group_btree_axioms, vstd::laws_cmp::group_laws_cmp;

pub struct EpochManager {
    epoch_height: u64,
    /// Epochs whose DRB request is in flight.
    pending_drb_requests: BTreeSet<u64>,
    /// Epochs whose DRB was obtained.
    completed_drb_requests: BTreeSet<u64>,
}

impl EpochManager {
    pub closed spec fn spec_epoch_height(&self) -> u64 {
        self.epoch_height
    }

    pub closed spec fn spec_pending(&self) -> Set<u64> {
        self.pending_drb_requests@
    }

    pub closed spec fn spec_completed(&self) -> Set<u64> {
        self.completed_drb_requests@
    }

    pub fn new(epoch_height: u64) -> (r: Self)
        ensures
            r.spec_epoch_height() == epoch_height,
            r.spec_pending() == Set::<u64>::empty(),
            r.spec_completed() == Set::<u64>::empty(),
    {
        EpochManager { epoch_height, pending_drb_requests: BTreeSet::new(), completed_drb_requests: BTreeSet::new() }
    }

    /// Whether a request for `epoch`'s DRB is to be made now: not if one is
    /// in flight or answered. A request made is in flight from then on.
    pub fn request_drb_result(&mut self, epoch: u64) -> (r: bool)
        ensures
            r == (!old(self).spec_pending().contains(epoch) && !old(self).spec_completed().contains(epoch)),
            final(self).spec_pending() == if r {
                old(self).spec_pending().insert(epoch)
            } else {
                old(self).spec_pending()
            },
            final(self).spec_completed() == old(self).spec_completed(),
            final(self).spec_epoch_height() == old(self).spec_epoch_height(),
    {
        if self.completed_drb_requests.contains(&epoch) {
            return false;
        }
        if self.pending_drb_requests.contains(&epoch) {
            return false;
        }
        self.pending_drb_requests.insert(epoch);
        true
    }

    /// A decided leaf at an epoch root asks for the DRB of the epoch two
    /// ahead; the epoch asked for is returned if a request is to be made.
    pub fn handle_leaf_decided(&mut self, leaf: &Leaf) -> (r: Option<u64>)
        ensures
            final(self).spec_epoch_height() == old(self).spec_epoch_height(),
            final(self).spec_completed() == old(self).spec_completed(),
            !spec_is_epoch_root(leaf.proposal.block_header.block_number, old(self).spec_epoch_height())
                ==> r is None && final(self).spec_pending() == old(self).spec_pending(),
            spec_is_epoch_root(leaf.proposal.block_header.block_number, old(self).spec_epoch_height()) ==> {
                let e = spec_epoch_from_block_number(leaf.proposal.block_header.block_number, old(self).spec_epoch_height()) + 2;
                &&& e <= u64::MAX ==> {
                    let fresh = !old(self).spec_pending().contains(e as u64) && !old(self).spec_completed().contains(e as u64);
                    &&& r == if fresh { Some(e as u64) } else { None }
                    &&& final(self).spec_pending() == if fresh {
                        old(self).spec_pending().insert(e as u64)
                    } else {
                        old(self).spec_pending()
                    }
                }
                &&& e > u64::MAX ==> r is None && final(self).spec_pending() == old(self).spec_pending()
            },
    {
        let block_number = leaf.proposal.block_header.block_number;
        if !is_epoch_root(block_number, self.epoch_height) {
            return None;
        }
        let epoch = epoch_from_block_number(block_number, self.epoch_height);
        if epoch > u64::MAX - 2 {
            return None;
        }
        let target = epoch + 2;
        if self.request_drb_result(target) {
            Some(target)
        } else {
            None
        }
    }

    /// A DRB request for `epoch` came back, successfully or not. A success
    /// is not asked for again; a failure may be.
    pub fn drb_request_finished(&mut self, epoch: u64, succeeded: bool)
        ensures
            final(self).spec_pending() == old(self).spec_pending().remove(epoch),
            final(self).spec_completed() == if succeeded {
                old(self).spec_completed().insert(epoch)
            } else {
                old(self).spec_completed()
            },
            final(self).spec_epoch_height() == old(self).spec_epoch_height(),
    {
        self.pending_drb_requests.remove(&epoch);
        if succeeded {
            self.completed_drb_requests.insert(epoch);
        }
    }

    /// Forget the requests for epochs before `epoch`.
    pub fn gc(&mut self, epoch: u64)
        ensures
            final(self).spec_pending() == old(self).spec_pending().filter(|e: u64| e >= epoch),
            final(self).spec_completed() == old(self).spec_completed().filter(|e: u64| e >= epoch),
            final(self).spec_epoch_height() == old(self).spec_epoch_height(),
    {
        crate::collections::set_retain_from(&mut self.pending_drb_requests, epoch);
        crate::collections::set_retain_from(&mut self.completed_drb_requests, epoch);
    }
}

} // verus!
