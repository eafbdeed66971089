//! A view timeout that fires once per arming.
//!
//! The clock itself is the caller's; this holds which view and epoch the
//! timeout is for, and whether the current arming has fired, so that an
//! elapsed timer reports once rather than on every poll.
use std::time::Duration;
use vstd::prelude::*;

verus! {

pub struct Timer {
    view: u64,
    epoch: u64,
    duration: Duration,
    /// Whether the current arming has fired.
    done: bool,
}

impl Timer {
    pub closed spec fn spec_view(&self) -> u64 {
        self.view
    }

    pub closed spec fn spec_epoch(&self) -> u64 {
        self.epoch
    }

    pub closed spec fn spec_duration(&self) -> Duration {
        self.duration
    }

    pub closed spec fn spec_done(&self) -> bool {
        self.done
    }

    /// A timer armed for `view` in `epoch`, firing `duration` from now.
    pub fn new(duration: Duration, view: u64, epoch: u64) -> (r: Self)
        ensures
            r.spec_view() == view,
            r.spec_epoch() == epoch,
            r.spec_duration() == duration,
            !r.spec_done(),
    {
        Timer { view, epoch, duration, done: false }
    }

    pub fn view(&self) -> (r: u64)
        ensures
            r == self.spec_view(),
    {
        self.view
    }

    pub fn epoch(&self) -> (r: u64)
        ensures
            r == self.spec_epoch(),
    {
        self.epoch
    }

    pub fn duration(&self) -> (r: Duration)
        ensures
            r == self.spec_duration(),
    {
        self.duration
    }

    /// Arm again for the same view; the caller restarts the clock.
    pub fn reset(&mut self)
        ensures
            !final(self).spec_done(),
            final(self).spec_view() == old(self).spec_view(),
            final(self).spec_epoch() == old(self).spec_epoch(),
            final(self).spec_duration() == old(self).spec_duration(),
    {
        self.done = false;
    }

    /// Arm again for `view` in `epoch`; the caller restarts the clock.
    pub fn reset_with_epoch(&mut self, view: u64, epoch: u64)
        ensures
            !final(self).spec_done(),
            final(self).spec_view() == view,
            final(self).spec_epoch() == epoch,
            final(self).spec_duration() == old(self).spec_duration(),
    {
        self.view = view;
        self.epoch = epoch;
        self.done = false;
    }

    /// Whether the timer fires now, given whether its clock has run out: it
    /// fires once per arming, the first time the clock is found run out.
    pub fn poll(&mut self, elapsed: bool) -> (r: bool)
        ensures
            polled(*old(self), *final(self), elapsed, r),
    {
        if self.done || !elapsed {
            return false;
        }
        self.done = true;
        true
    }
}

/// Whether polling `before`, with its clock run out or not, fires it and
/// leaves `after`: it fires if this arming has not fired yet and the clock ran
/// out, and the arming has fired from then on.
pub open spec fn polled(before: Timer, after: Timer, elapsed: bool, fired: bool) -> bool {
    &&& fired == (!before.spec_done() && elapsed)
    &&& after.spec_done() == (before.spec_done() || elapsed)
    &&& after.spec_view() == before.spec_view()
    &&& after.spec_epoch() == before.spec_epoch()
    &&& after.spec_duration() == before.spec_duration()
}

/// A timer fires once per arming: once a poll fired it, no later poll fires
/// it again until it is reset.
pub proof fn law_fires_once_per_arming(t0: Timer, t1: Timer, t2: Timer, e1: bool, e2: bool, fired1: bool, fired2: bool)
    requires
        polled(t0, t1, e1, fired1),
        polled(t1, t2, e2, fired2),
        fired1,
    ensures
        !fired2,
{
}

} // verus!
