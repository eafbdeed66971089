//! The one-way switch from the replaced protocol to this one.
use crate::schedule::{epoch_from_block_number, lemma_epoch_fits, spec_epoch_from_block_number};
use vstd::prelude::*;

verus! {

/// Latches once the replaced protocol has crossed into this one: after the
/// first successful handover every later check succeeds without another
/// attempt.
#[derive(Debug, Default)]
pub struct HandoverGate {
    active: bool,
}

impl HandoverGate {
    pub closed spec fn spec_active(&self) -> bool {
        self.active
    }

    pub fn new() -> (r: Self)
        ensures
            !r.spec_active(),
    {
        HandoverGate { active: false }
    }

    /// Whether a handover already succeeded, so the caller can skip
    /// attempting one.
    pub fn is_active(&self) -> (r: bool)
        ensures
            r == self.spec_active(),
    {
        self.active
    }

    /// Note how a handover attempt, made only while inactive, came out, and
    /// answer whether the protocols have crossed. Once active, always active.
    pub fn record(&mut self, crossed: bool) -> (r: bool)
        ensures
            recorded(*old(self), *final(self), crossed, r),
    {
        if !self.active && crossed {
            self.active = true;
        }
        self.active
    }
}

/// The epoch to announce when the replaced protocol decides block
/// `block_number`, after `last_forwarded` was: its epoch, if it is later.
/// With an epoch height of zero nothing is announced.
pub open spec fn spec_epoch_to_forward(last_forwarded: Option<u64>, block_number: u64, epoch_height: u64) -> Option<u64> {
    if epoch_height == 0 {
        None
    } else {
        let epoch = spec_epoch_from_block_number(block_number, epoch_height);
        if last_forwarded matches Some(prev) && epoch <= prev {
            None
        } else {
            Some(epoch as u64)
        }
    }
}

pub fn epoch_to_forward(last_forwarded: Option<u64>, block_number: u64, epoch_height: u64) -> (r: Option<u64>)
    ensures
        r == spec_epoch_to_forward(last_forwarded, block_number, epoch_height),
{
    if epoch_height == 0 {
        return None;
    }
    let epoch = epoch_from_block_number(block_number, epoch_height);
    match last_forwarded {
        Some(prev) if epoch <= prev => None,
        _ => Some(epoch),
    }
}

/// Announced epochs strictly increase: what is announced after an epoch is
/// a later one.
pub proof fn law_announced_epochs_increase(prev: u64, block_number: u64, epoch_height: u64)
    ensures
        spec_epoch_to_forward(Some(prev), block_number, epoch_height) matches Some(e) ==> e > prev,
{
    lemma_epoch_fits(block_number, epoch_height);
}

/// Whether noting an attempt that found the protocols `crossed` or not takes
/// the switch from `before` to `after`, with `active` as the result.
pub open spec fn recorded(before: HandoverGate, after: HandoverGate, crossed: bool, active: bool) -> bool {
    &&& after.spec_active() == (before.spec_active() || crossed)
    &&& active == after.spec_active()
}

/// The switch latches: once a check found the protocols crossed, every later
/// check finds them crossed too, whatever the attempt reports.
pub proof fn law_handover_latches(g0: HandoverGate, g1: HandoverGate, g2: HandoverGate, c1: bool, c2: bool, a1: bool, a2: bool)
    requires
        recorded(g0, g1, c1, a1),
        recorded(g1, g2, c2, a2),
        a1,
    ensures
        a2,
{
}

} // verus!
