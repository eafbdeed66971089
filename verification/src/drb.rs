//! Which epochs' DRB computations are running or done.
//!
//! A computation is started per epoch on request; when it yields its result
//! the epoch is done. Collecting garbage below an epoch cancels the
//! computations still running there and forgets what was done there.
use std::collections::BTreeSet;
use vstd::prelude::*;

verus! {

broadcast use vstd::std_specs::btree::group_btree_axioms, vstd::laws_cmp::group_laws_cmp;

pub struct DrbRequester {
    calculations: BTreeSet<u64>,
    completed_epochs: BTreeSet<u64>,
}

impl DrbRequester {
    /// The epochs whose computation is running.
    pub closed spec fn spec_calculations(&self) -> Set<u64> {
        self.calculations@
    }

    /// The epochs whose computation yielded a result.
    pub closed spec fn spec_completed(&self) -> Set<u64> {
        self.completed_epochs@
    }

    pub fn new() -> (r: Self)
        ensures
            r.spec_calculations() == Set::<u64>::empty(),
            r.spec_completed() == Set::<u64>::empty(),
    {
        DrbRequester { calculations: BTreeSet::new(), completed_epochs: BTreeSet::new() }
    }

    /// A computation of `epoch`'s DRB was started.
    pub fn request_drb(&mut self, epoch: u64)
        ensures
            final(self).spec_calculations() == old(self).spec_calculations().insert(epoch),
            final(self).spec_completed() == old(self).spec_completed(),
    {
        self.calculations.insert(epoch);
    }

    /// The computation of `epoch`'s DRB yielded its result.
    pub fn task_finished(&mut self, epoch: u64)
        ensures
            final(self).spec_calculations() == old(self).spec_calculations().remove(epoch),
            final(self).spec_completed() == old(self).spec_completed().insert(epoch),
    {
        self.calculations.remove(&epoch);
        self.completed_epochs.insert(epoch);
    }

    /// Forget the epochs before `epoch`; returns those whose computation is
    /// to be cancelled.
    pub fn gc(&mut self, epoch: u64) -> (r: Vec<u64>)
        ensures
            final(self).spec_calculations() == old(self).spec_calculations().filter(|e: u64| e >= epoch),
            final(self).spec_completed() == old(self).spec_completed().filter(|e: u64| e >= epoch),
            forall|e: u64| r@.contains(e) <==> old(self).spec_calculations().contains(e) && e < epoch,
    {
        let aborted = crate::collections::set_split_below(&mut self.calculations, epoch);
        crate::collections::set_retain_from(&mut self.completed_epochs, epoch);
        aborted
    }
}

} // verus!
