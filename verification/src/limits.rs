//! Message-size limits derived from a chain's block size.
use vstd::prelude::*;

verus! {

/// The message limit released nodes run with (10 MiB). No derived limit goes
/// below it, so a chain with smaller blocks keeps what every release accepts.
pub const MIN_MESSAGE_LIMIT: usize = 10485760;

/// Room above a full block for the envelope of the messages that carry one:
/// version, sender key, enum tags, commitment and length prefixes (64 KiB).
pub const MESSAGE_HEADROOM: usize = 65536;

/// Room left in a forwarded message for everything but the transactions.
pub const FORWARD_ENVELOPE_BYTES: u64 = 4096;

/// The message limit for blocks of at most `max_block_size` bytes: a block
/// plus its envelope, saturating at the machine's limit, never below
/// [`MIN_MESSAGE_LIMIT`].
pub open spec fn spec_message_limit(max_block_size: u64) -> int {
    let block: int = if max_block_size <= usize::MAX { max_block_size as int } else { usize::MAX as int };
    let limit: int = if block + MESSAGE_HEADROOM <= usize::MAX { block + MESSAGE_HEADROOM } else { usize::MAX as int };
    if limit >= MIN_MESSAGE_LIMIT { limit } else { MIN_MESSAGE_LIMIT as int }
}

/// The message limit for a protocol version whose blocks are at most
/// `max_block_size` bytes. It is never zero.
pub fn message_limit(max_block_size: u64) -> (r: usize)
    ensures
        r == spec_message_limit(max_block_size),
        r >= MIN_MESSAGE_LIMIT,
{
    let block: usize = if max_block_size <= usize::MAX as u64 {
        max_block_size as usize
    } else {
        usize::MAX
    };
    let limit = block.saturating_add(MESSAGE_HEADROOM);
    if limit >= MIN_MESSAGE_LIMIT {
        limit
    } else {
        MIN_MESSAGE_LIMIT
    }
}

/// The encoded bytes of transactions that fit in one message of
/// `max_message_size` bytes: the message less its envelope, or nothing.
pub fn forward_budget(max_message_size: usize) -> (r: u64)
    requires
        max_message_size > 0,
    ensures
        r == (if max_message_size >= FORWARD_ENVELOPE_BYTES { max_message_size - FORWARD_ENVELOPE_BYTES } else { 0 }),
{
    (max_message_size as u64).saturating_sub(FORWARD_ENVELOPE_BYTES)
}

} // verus!
