//! Fine-grained tracing of a leader's work for one view.
//!
//! Production registers no tracer; a benchmark registers one and writes the
//! stream to disk, keyed by view and wall-clock time, for offline timeline
//! reconstruction.
use vstd::prelude::*;

verus! {

/// A receiver of leader events. `view` is the raw view number and `ts_ns`
/// wall-clock nanoseconds since the Unix epoch.
pub trait LeaderTracer {
    fn record(&self, view: u64, event: LeaderEvent, ts_ns: i128);
}

/// The events of a leader's duty from view `V - 1` to view `V`, grouped by
/// phase in one flat enum so a downstream tool can match on a name.
#[derive(Debug, Clone, Copy, PartialEq, Eq)]
pub enum LeaderEvent {
    // Phase 0 - V-1 events that trigger V duty.
    ProposalValidatedVMinus1,
    RequestBlockHeaderQueued,
    HeaderCreatedApplied,
    BlockBuiltApplied,
    RequestVidDisperseQueued,

    // Phase 2 - ns_disperse on the background task.
    NsDisperseStart,
    NsDisperseEnd,

    // Phase 3 - post-disperse outbox push on the consensus task.
    BlockPushSigned,
    BlockPushQueued,
    ShareSignLoopStart,
    ShareSignLoopEnd,
    VidSharesQueued,

    // Phase 4 - outbox drain (network I/O).
    BlockPushUnicastStart,
    BlockPushUnicastEnd,
    VidSharesUnicastStart,
    VidSharesUnicastEnd,

    // Phase 5 - replica-of-V-1 work running in parallel.
    Vote1VMinus1Arrived,
    BlockPushVMinus1Received,
    VerifyBlockVMinus1Start,
    VerifyBlockVMinus1End,
    ThresholdShareReachedVMinus1,
    RecoverVMinus1Start,
    /// The payload is decoded; what follows until the end is the serial
    /// hashing of its transactions, measured apart from the parallel decoding.
    RecoverVMinus1DecodeEnd,
    RecoverVMinus1End,

    // Phase 6 - cert1[V-1] formation gates Phase 7.
    Cert1VMinus1ThresholdReached,
    Cert1VMinus1Aggregated,
    Cert1VMinus1InputDispatched,
    Vote2VMinus1Signed,
    Vote2VMinus1Queued,
    // Phase 6b - cert2 formation (the QC2 round) and finality.
    Cert2VMinus1InputDispatched,
    LeafDecided,

    // Phase 7 - build + sign V's proposal.
    MaybeProposeEntered,
    Leaf2CommitComputed,
    ProposalSigned,
    ProposalQueued,

    // Phase 8 - outbox drain II.
    ProposalBroadcastStart,
    ProposalBroadcastEnd,
    Vote2VMinus1BroadcastStart,
    Vote2VMinus1BroadcastEnd,
    Cert1VMinus1BroadcastStart,
    Cert1VMinus1BroadcastEnd,
}

impl LeaderEvent {
    /// The stable name of the event, as written out.
    pub open spec fn spec_name(self) -> Seq<char> {
        match self {
            LeaderEvent::ProposalValidatedVMinus1 => "proposal_validated_v_minus_1"@,
            LeaderEvent::RequestBlockHeaderQueued => "request_block_header_queued"@,
            LeaderEvent::HeaderCreatedApplied => "header_created_applied"@,
            LeaderEvent::BlockBuiltApplied => "block_built_applied"@,
            LeaderEvent::RequestVidDisperseQueued => "request_vid_disperse_queued"@,
            LeaderEvent::NsDisperseStart => "ns_disperse_start"@,
            LeaderEvent::NsDisperseEnd => "ns_disperse_end"@,
            LeaderEvent::BlockPushSigned => "block_push_signed"@,
            LeaderEvent::BlockPushQueued => "block_push_queued"@,
            LeaderEvent::ShareSignLoopStart => "share_sign_loop_start"@,
            LeaderEvent::ShareSignLoopEnd => "share_sign_loop_end"@,
            LeaderEvent::VidSharesQueued => "vid_shares_queued"@,
            LeaderEvent::BlockPushUnicastStart => "block_push_unicast_start"@,
            LeaderEvent::BlockPushUnicastEnd => "block_push_unicast_end"@,
            LeaderEvent::VidSharesUnicastStart => "vid_shares_unicast_start"@,
            LeaderEvent::VidSharesUnicastEnd => "vid_shares_unicast_end"@,
            LeaderEvent::Vote1VMinus1Arrived => "vote1_v_minus_1_arrived"@,
            LeaderEvent::BlockPushVMinus1Received => "block_push_v_minus_1_received"@,
            LeaderEvent::VerifyBlockVMinus1Start => "verify_block_v_minus_1_start"@,
            LeaderEvent::VerifyBlockVMinus1End => "verify_block_v_minus_1_end"@,
            LeaderEvent::ThresholdShareReachedVMinus1 => "threshold_share_reached_v_minus_1"@,
            LeaderEvent::RecoverVMinus1Start => "recover_v_minus_1_start"@,
            LeaderEvent::RecoverVMinus1DecodeEnd => "recover_v_minus_1_decode_end"@,
            LeaderEvent::RecoverVMinus1End => "recover_v_minus_1_end"@,
            LeaderEvent::Cert1VMinus1ThresholdReached => "cert1_v_minus_1_threshold_reached"@,
            LeaderEvent::Cert1VMinus1Aggregated => "cert1_v_minus_1_aggregated"@,
            LeaderEvent::Cert1VMinus1InputDispatched => "cert1_v_minus_1_input_dispatched"@,
            LeaderEvent::Vote2VMinus1Signed => "vote2_v_minus_1_signed"@,
            LeaderEvent::Vote2VMinus1Queued => "vote2_v_minus_1_queued"@,
            LeaderEvent::Cert2VMinus1InputDispatched => "cert2_v_minus_1_input_dispatched"@,
            LeaderEvent::LeafDecided => "leaf_decided"@,
            LeaderEvent::MaybeProposeEntered => "maybe_propose_entered"@,
            LeaderEvent::Leaf2CommitComputed => "leaf2_commit_computed"@,
            LeaderEvent::ProposalSigned => "proposal_signed"@,
            LeaderEvent::ProposalQueued => "proposal_queued"@,
            LeaderEvent::ProposalBroadcastStart => "proposal_broadcast_start"@,
            LeaderEvent::ProposalBroadcastEnd => "proposal_broadcast_end"@,
            LeaderEvent::Vote2VMinus1BroadcastStart => "vote2_v_minus_1_broadcast_start"@,
            LeaderEvent::Vote2VMinus1BroadcastEnd => "vote2_v_minus_1_broadcast_end"@,
            LeaderEvent::Cert1VMinus1BroadcastStart => "cert1_v_minus_1_broadcast_start"@,
            LeaderEvent::Cert1VMinus1BroadcastEnd => "cert1_v_minus_1_broadcast_end"@,
        }
    }

    /// Stable string name for CSV emission.
    pub fn name(self) -> (r: &'static str)
        ensures
            r@ == self.spec_name(),
    {
        match self {
            LeaderEvent::ProposalValidatedVMinus1 => "proposal_validated_v_minus_1",
            LeaderEvent::RequestBlockHeaderQueued => "request_block_header_queued",
            LeaderEvent::HeaderCreatedApplied => "header_created_applied",
            LeaderEvent::BlockBuiltApplied => "block_built_applied",
            LeaderEvent::RequestVidDisperseQueued => "request_vid_disperse_queued",
            LeaderEvent::NsDisperseStart => "ns_disperse_start",
            LeaderEvent::NsDisperseEnd => "ns_disperse_end",
            LeaderEvent::BlockPushSigned => "block_push_signed",
            LeaderEvent::BlockPushQueued => "block_push_queued",
            LeaderEvent::ShareSignLoopStart => "share_sign_loop_start",
            LeaderEvent::ShareSignLoopEnd => "share_sign_loop_end",
            LeaderEvent::VidSharesQueued => "vid_shares_queued",
            LeaderEvent::BlockPushUnicastStart => "block_push_unicast_start",
            LeaderEvent::BlockPushUnicastEnd => "block_push_unicast_end",
            LeaderEvent::VidSharesUnicastStart => "vid_shares_unicast_start",
            LeaderEvent::VidSharesUnicastEnd => "vid_shares_unicast_end",
            LeaderEvent::Vote1VMinus1Arrived => "vote1_v_minus_1_arrived",
            LeaderEvent::BlockPushVMinus1Received => "block_push_v_minus_1_received",
            LeaderEvent::VerifyBlockVMinus1Start => "verify_block_v_minus_1_start",
            LeaderEvent::VerifyBlockVMinus1End => "verify_block_v_minus_1_end",
            LeaderEvent::ThresholdShareReachedVMinus1 => "threshold_share_reached_v_minus_1",
            LeaderEvent::RecoverVMinus1Start => "recover_v_minus_1_start",
            LeaderEvent::RecoverVMinus1DecodeEnd => "recover_v_minus_1_decode_end",
            LeaderEvent::RecoverVMinus1End => "recover_v_minus_1_end",
            LeaderEvent::Cert1VMinus1ThresholdReached => "cert1_v_minus_1_threshold_reached",
            LeaderEvent::Cert1VMinus1Aggregated => "cert1_v_minus_1_aggregated",
            LeaderEvent::Cert1VMinus1InputDispatched => "cert1_v_minus_1_input_dispatched",
            LeaderEvent::Vote2VMinus1Signed => "vote2_v_minus_1_signed",
            LeaderEvent::Vote2VMinus1Queued => "vote2_v_minus_1_queued",
            LeaderEvent::Cert2VMinus1InputDispatched => "cert2_v_minus_1_input_dispatched",
            LeaderEvent::LeafDecided => "leaf_decided",
            LeaderEvent::MaybeProposeEntered => "maybe_propose_entered",
            LeaderEvent::Leaf2CommitComputed => "leaf2_commit_computed",
            LeaderEvent::ProposalSigned => "proposal_signed",
            LeaderEvent::ProposalQueued => "proposal_queued",
            LeaderEvent::ProposalBroadcastStart => "proposal_broadcast_start",
            LeaderEvent::ProposalBroadcastEnd => "proposal_broadcast_end",
            LeaderEvent::Vote2VMinus1BroadcastStart => "vote2_v_minus_1_broadcast_start",
            LeaderEvent::Vote2VMinus1BroadcastEnd => "vote2_v_minus_1_broadcast_end",
            LeaderEvent::Cert1VMinus1BroadcastStart => "cert1_v_minus_1_broadcast_start",
            LeaderEvent::Cert1VMinus1BroadcastEnd => "cert1_v_minus_1_broadcast_end",
        }
    }
}

/// Anything that stands for a view number.
pub trait AsViewU64 {
    fn as_view_u64(&self) -> u64;
}

impl AsViewU64 for u64 {
    /// A view number stands for itself.
    fn as_view_u64(&self) -> (r: u64)
        ensures
            r == *self,
    {
        *self
    }
}

} // verus!
