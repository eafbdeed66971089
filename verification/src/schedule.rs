//! Where a block falls in the epoch schedule.
//!
//! An epoch is `epoch_height` consecutive blocks; block `n * epoch_height` is
//! the last block of epoch `n`. The epoch root is the fifth block from the end
//! of an epoch, and the last three blocks before the boundary, together with
//! the boundary block itself, form the epoch transition. A height of zero
//! disables epochs: no block is then a last block, a root or a transition.
use vstd::prelude::*;

verus! {

/// The epoch that block `block` belongs to.
pub open spec fn spec_epoch_from_block_number(block: u64, epoch_height: u64) -> int {
    if epoch_height == 0 {
        0
    } else if block % epoch_height == 0 {
        (block / epoch_height) as int
    } else {
        block / epoch_height + 1
    }
}

/// Whether `block` is the last block of its epoch.
pub open spec fn spec_is_last_block(block: u64, epoch_height: u64) -> bool {
    block != 0 && epoch_height != 0 && block % epoch_height == 0
}

/// Whether `block` is the root of its epoch, five blocks before the boundary.
pub open spec fn spec_is_epoch_root(block: u64, epoch_height: u64) -> bool {
    block != 0 && epoch_height != 0 && (block + 5) % (epoch_height as int) == 0
}

/// Whether `block` lies in the transition at the end of its epoch.
pub open spec fn spec_is_epoch_transition(block: u64, epoch_height: u64) -> bool {
    block != 0 && epoch_height != 0 && (block % epoch_height == 0 || block % epoch_height
        >= epoch_height - 3)
}

pub fn epoch_from_block_number(block: u64, epoch_height: u64) -> (epoch: u64)
    ensures
        epoch == spec_epoch_from_block_number(block, epoch_height),
{
    if epoch_height == 0 {
        0
    } else if block % epoch_height == 0 {
        block / epoch_height
    } else {
        proof {
            lemma_epoch_fits(block, epoch_height);
        }
        block / epoch_height + 1
    }
}

/// An epoch number always fits the block numbers' type.
pub proof fn lemma_epoch_fits(block: u64, epoch_height: u64)
    ensures
        0 <= spec_epoch_from_block_number(block, epoch_height) <= u64::MAX,
{
    if epoch_height != 0 && block % epoch_height != 0 {
        assert(block / epoch_height < u64::MAX) by (nonlinear_arith)
            requires
                epoch_height > 0,
                block % epoch_height != 0,
        {
            if epoch_height == 1 {
                assert(block % 1 == 0);
            }
        }
    }
}

pub fn is_last_block(block: u64, epoch_height: u64) -> (r: bool)
    ensures
        r == spec_is_last_block(block, epoch_height),
{
    block != 0 && epoch_height != 0 && block % epoch_height == 0
}

pub fn is_epoch_root(block: u64, epoch_height: u64) -> (r: bool)
    ensures
        r == spec_is_epoch_root(block, epoch_height),
{
    if block == 0 || epoch_height == 0 {
        false
    } else {
        let shifted: u128 = block as u128 + 5;
        shifted % (epoch_height as u128) == 0
    }
}

pub fn is_epoch_transition(block: u64, epoch_height: u64) -> (r: bool)
    ensures
        r == spec_is_epoch_transition(block, epoch_height),
{
    if block == 0 || epoch_height == 0 {
        false
    } else {
        let offset = block % epoch_height;
        offset == 0 || offset as u128 + 3 >= epoch_height as u128
    }
}

} // verus!
