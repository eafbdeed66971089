//! The consensus state machine of one node.
//!
//! [`Consensus::apply`] takes one input (a proposal, a certificate, a
//! timeout, a storage confirmation, ...) and appends the outputs it calls for
//! to an [`Outbox`]: votes to send, things to persist, data to fetch. The
//! protocol runs in two phases. A node votes for a proposal once it has
//! validated the proposal's state and reconstructed the parent's block; a
//! quorum of such votes forms a first certificate, which locks the node on
//! the leaf and makes it vote again; a quorum of second votes decides the
//! leaf and, through the justify QCs, every undecided ancestor.
//!
//! Signing and hashing need keys and bytes the decision logic does not hold:
//! votes leave here unsigned, to be signed on the way out, and a proposal the
//! node builds is handed out to be signed and comes back as
//! [`ConsensusInput::ProposalSigned`].
use crate::collections::{map_retain_from, pair_map_retain_from, pair_set_retain_from, set_retain_from};
use crate::data::{
    same_opt, ActionKind, BlockAndHeaderRequest, BlockHeader, CatchupEvidence, Certificate1,
    Certificate2, EpochChangeMessage, Leaf, Payload, Proposal, SignedProposal, StateCertificate,
    StateRequest, StateResponse, StorageOutput, TimeoutCertificate, TimeoutVote, VidCommitment,
    VidShare, Vote1, Vote2,
};
use crate::membership::Membership;
use crate::outbox::Outbox;
use crate::schedule::{
    epoch_from_block_number, is_epoch_root, is_epoch_transition, is_last_block,
    spec_epoch_from_block_number, spec_is_epoch_root, spec_is_epoch_transition, spec_is_last_block,
};
use crate::validation::{spec_state_cert_corresponds, state_cert_corresponds};
use std::collections::{BTreeMap, BTreeSet};
use vstd::prelude::*;
use vstd::std_specs::iter::IteratorSpec;

verus! {

broadcast use vstd::std_specs::btree::group_btree_axioms, vstd::laws_cmp::group_laws_cmp,
    vstd::seq_lib::group_seq_properties;

/// Views behind the decided view for which the inputs to a decision are kept,
/// so a late second certificate can still decide an older gap view.
pub const DECIDE_BUFFER: u64 = 20;

/// Which per-view state a garbage collection drops.
#[derive(Clone, Copy, Debug)]
pub enum GcScope {
    /// The node moved on to a new view.
    Local(u64),
    /// A view was decided.
    Decided(u64),
    /// A view advanced through a timeout certificate.
    Timeout(u64),
}

/// What the node takes over from the protocol it replaces, at a decided
/// upgrade boundary.
pub struct PreCutoverSeed {
    /// The highest decided leaf; it anchors the decided view.
    pub decided_anchor: Leaf,
    /// The undecided chain above the anchor, oldest first.
    pub undecided: Vec<Leaf>,
    /// The highest quorum certificate, if any.
    pub high_qc: Option<Certificate1>,
    /// The first view run by this protocol.
    pub cutover_view: u64,
}

pub enum ConsensusInput {
    BlockBuilt {
        view: u64,
        epoch: u64,
        payload: Payload,
        metadata: Vec<u8>,
        payload_commitment: VidCommitment,
    },
    BlockReconstructed(u64, u64),
    /// A verified first certificate, with the epoch whose committee signed it.
    Certificate1(Certificate1, u64),
    Certificate2(Certificate2, u64),
    /// A quorum certificate that lets a node which fell behind advance its view.
    AdvanceView(Certificate1, u64),
    /// An epoch-root first certificate and its state certificate, which always
    /// arrive together.
    EpochRootCertificates { cert1: Certificate1, epoch: u64, state_cert: StateCertificate },
    EpochChange(EpochChangeMessage),
    /// A header built for the proposal at `view` on the parent with the given
    /// leaf commitment.
    HeaderCreated(u64, u64, BlockHeader),
    /// A validated proposal and its sender. It is parked until this node's
    /// share of the same payload arrives.
    Proposal(u64, SignedProposal),
    /// This node's validated share.
    VidShare(VidShare),
    FetchedProposal(SignedProposal),
    StateValidated(StateResponse),
    StateValidationFailed(StateResponse),
    Stored(StorageOutput),
    Timeout(u64, u64),
    TimeoutCertificate(TimeoutCertificate, u64),
    TimeoutOneHonest(u64, u64),
    VidDisperseCreated(u64, u64),
    DrbResult(u64, u64),
    /// A proposal this node built, back from signing.
    ProposalSigned(SignedProposal),
}

pub enum ConsensusOutput {
    RequestBlockAndHeader(BlockAndHeaderRequest),
    RequestState(StateRequest),
    RequestDrbResult(u64),
    RecordAction(u64, Option<u64>, ActionKind),
    PersistProposal(SignedProposal),
    SendProposal(SignedProposal),
    SendTimeoutVote(TimeoutVote, Option<CatchupEvidence>),
    SendVote1(Vote1),
    SendVote2(Vote2),
    /// Persist the locked QC before the matching second vote is released.
    PersistHighQc(Certificate1),
    SendTimeoutCertificate(TimeoutCertificate, u64, u64),
    SendCertificate1(Certificate1),
    SendCertificate2(Certificate2),
    SendEpochChange(EpochChangeMessage),
    RequestVidDisperse {
        view: u64,
        epoch: u64,
        payload: Payload,
        metadata: Vec<u8>,
        payload_commitment: u64,
    },
    LeafDecided {
        /// Newest first; each leaf's justify QC certifies the next.
        leaves: Vec<Leaf>,
        cert1: Certificate1,
        cert2: Option<Certificate2>,
        vid_shares: Vec<Option<VidShare>>,
    },
    ViewChanged(u64, u64),
    /// A view timed out with a timeout certificate.
    ViewTimedOut(u64),
    ProposalPaired { proposal: SignedProposal, vid_share: VidShare },
    ProposalValidated { proposal: SignedProposal, sender: u64 },
    RequestMissingProposal { view: u64, leaf_commit: u64 },
    BroadcastVidShare(VidShare),
    /// A proposal this node built, to be signed.
    SignProposal(Proposal),
}

/// Why a proposal fails the safety and liveness rule.
#[derive(Clone, Copy, Debug)]
pub enum SafetyError {
    /// The proposal is at the locked view but is not the locked leaf.
    LockedViewCommitmentMismatch { locked_commit: u64, proposal_commit: u64 },
    /// The justify QC neither extends the locked leaf nor is newer than it.
    UnsafeProposal { locked_view: u64, parent_commit: u64, locked_commit: u64 },
}

pub struct Consensus {
    proposals: BTreeMap<u64, Proposal>,
    signed_proposals: BTreeMap<u64, SignedProposal>,
    proposed_views: BTreeSet<u64>,
    vid_shares: BTreeMap<u64, VidShare>,
    unpaired_proposals: BTreeMap<(u64, u64), (u64, SignedProposal)>,
    unpaired_vid_shares: BTreeMap<(u64, u64), VidShare>,
    states_verified: BTreeMap<u64, u64>,
    blocks_reconstructed: BTreeSet<(u64, u64)>,
    blocks: BTreeMap<(u64, u64), Payload>,
    certs: BTreeMap<u64, Certificate1>,
    certs2: BTreeMap<u64, Certificate2>,
    timeout_certs: BTreeMap<u64, TimeoutCertificate>,
    locked_cert: Option<Certificate1>,
    headers: BTreeMap<(u64, u64), BlockHeader>,
    leaves: BTreeMap<u64, Leaf>,
    /// Views emitted in a decision; the decided view is only a high-water mark.
    decided_views: BTreeSet<u64>,
    /// Hard lower bound for deciding, pinned to the anchor on restart or cutover.
    decide_floor_view: u64,
    last_decided_view: u64,
    last_decided_leaf: Leaf,
    drb_results: BTreeMap<u64, u64>,
    voted_1_views: BTreeSet<u64>,
    voted_2_views: BTreeSet<u64>,
    stored_proposals: BTreeMap<u64, Vec<u64>>,
    stored_vids: BTreeSet<u64>,
    stored_vote_actions: BTreeSet<u64>,
    stored_propose_actions: BTreeSet<u64>,
    requested_vote_actions: BTreeSet<u64>,
    requested_propose_actions: BTreeSet<u64>,
    /// Highest locked-QC view confirmed persisted.
    stored_high_qc: Option<u64>,
    pending_vote1: BTreeMap<u64, Vote1>,
    /// A pending second vote and the locked-QC view it must see persisted.
    pending_vote2: BTreeMap<u64, (Vote2, u64)>,
    pending_proposal: BTreeMap<u64, SignedProposal>,
    pre_cutover_views: BTreeSet<u64>,
    timeout_view: u64,
    restart_barred_view: u64,
    current_view: u64,
    current_epoch: Option<u64>,
    public_key: u64,
    state_certs: BTreeMap<u64, StateCertificate>,
    epoch_height: u64,
}

/// A part of a node's state, as the accessors of [`Consensus`] give it.
#[derive(PartialEq, Eq, Structural)]
pub enum Part {
    CurrentView,
    CurrentEpoch,
    TimeoutView,
    RestartBarredView,
    LastDecidedView,
    LastDecidedLeaf,
    DecideFloorView,
    Locked,
    StoredHighQc,
    Voted1,
    Voted2,
    Proposed,
    Decided,
    PendingVote1,
    PendingVote2,
    Proposals,
    Certs1,
    Certs2,
    TimeoutCerts,
    StateCerts,
    Reconstructed,
    PreCutover,
    Leaves,
    VidShares,
    DrbResults,
    StatesVerified,
    Headers,
    Blocks,
    PendingProposals,
    PublicKey,
    EpochHeight,
    UnpairedProposals,
    UnpairedShares,
    RequestedProposes,
    RequestedVotes,
    Signed,
    StoredVoteActions,
    StoredProposes,
    StoredVids,
    StoredProposals,
}

/// Whether `a` and `b` agree on `part`.
pub open spec fn agrees(a: &Consensus, b: &Consensus, part: Part) -> bool {
    match part {
        Part::CurrentView => a.spec_current_view() == b.spec_current_view(),
        Part::CurrentEpoch => a.spec_current_epoch() == b.spec_current_epoch(),
        Part::TimeoutView => a.spec_timeout_view() == b.spec_timeout_view(),
        Part::RestartBarredView => a.spec_restart_barred_view() == b.spec_restart_barred_view(),
        Part::LastDecidedView => a.spec_last_decided_view() == b.spec_last_decided_view(),
        Part::LastDecidedLeaf => a.spec_last_decided_leaf() == b.spec_last_decided_leaf(),
        Part::DecideFloorView => a.spec_decide_floor_view() == b.spec_decide_floor_view(),
        Part::Locked => a.spec_locked() == b.spec_locked(),
        Part::StoredHighQc => a.spec_stored_high_qc() == b.spec_stored_high_qc(),
        Part::Voted1 => a.spec_voted_1() == b.spec_voted_1(),
        Part::Voted2 => a.spec_voted_2() == b.spec_voted_2(),
        Part::Proposed => a.spec_proposed() == b.spec_proposed(),
        Part::Decided => a.spec_decided() == b.spec_decided(),
        Part::PendingVote1 => a.spec_pending_vote1() == b.spec_pending_vote1(),
        Part::PendingVote2 => a.spec_pending_vote2() == b.spec_pending_vote2(),
        Part::Proposals => a.spec_proposals() == b.spec_proposals(),
        Part::Certs1 => a.spec_certs1() == b.spec_certs1(),
        Part::Certs2 => a.spec_certs2() == b.spec_certs2(),
        Part::TimeoutCerts => a.spec_timeout_certs() == b.spec_timeout_certs(),
        Part::StateCerts => a.spec_state_certs() == b.spec_state_certs(),
        Part::Reconstructed => a.spec_reconstructed() == b.spec_reconstructed(),
        Part::PreCutover => a.spec_pre_cutover() == b.spec_pre_cutover(),
        Part::Leaves => a.spec_leaves() == b.spec_leaves(),
        Part::VidShares => a.spec_vid_shares() == b.spec_vid_shares(),
        Part::DrbResults => a.spec_drb_results() == b.spec_drb_results(),
        Part::StatesVerified => a.spec_states_verified() == b.spec_states_verified(),
        Part::Headers => a.spec_headers() == b.spec_headers(),
        Part::Blocks => a.spec_blocks() == b.spec_blocks(),
        Part::PendingProposals => a.spec_pending_proposals() == b.spec_pending_proposals(),
        Part::PublicKey => a.spec_public_key() == b.spec_public_key(),
        Part::EpochHeight => a.spec_epoch_height() == b.spec_epoch_height(),
        Part::UnpairedProposals => a.spec_unpaired_proposals() == b.spec_unpaired_proposals(),
        Part::UnpairedShares => a.spec_unpaired_shares() == b.spec_unpaired_shares(),
        Part::RequestedProposes => a.spec_requested_proposes() == b.spec_requested_proposes(),
        Part::RequestedVotes => a.spec_requested_votes() == b.spec_requested_votes(),
        Part::Signed => a.spec_signed() == b.spec_signed(),
        Part::StoredVoteActions => a.spec_stored_vote_actions() == b.spec_stored_vote_actions(),
        Part::StoredProposes => a.spec_stored_proposes() == b.spec_stored_proposes(),
        Part::StoredVids => a.spec_stored_vids() == b.spec_stored_vids(),
        Part::StoredProposals => a.spec_stored_proposals() == b.spec_stored_proposals(),
    }
}

/// `b` agrees with `a` on every part outside `parts`.
pub open spec fn changes_only(a: &Consensus, b: &Consensus, parts: Set<Part>) -> bool {
    forall|part: Part| !parts.contains(part) ==> #[trigger] agrees(a, b, part)
}

/// What [`Consensus::same_except_state_certs`] keeps: every part but StateCerts.
pub proof fn lemma_same_except_state_certs(a: &Consensus, b: &Consensus)
    requires
        a.same_except_state_certs(b),
    ensures
        changes_only(a, b, set![Part::StateCerts]),
{
}

/// What [`Consensus::same_except_timeout_view`] keeps: every part but TimeoutView.
pub proof fn lemma_same_except_timeout_view(a: &Consensus, b: &Consensus)
    requires
        a.same_except_timeout_view(b),
    ensures
        changes_only(a, b, set![Part::TimeoutView]),
{
}

/// What [`Consensus::same_except_unpaired_proposals`] keeps: every part but UnpairedProposals.
pub proof fn lemma_same_except_unpaired_proposals(a: &Consensus, b: &Consensus)
    requires
        a.same_except_unpaired_proposals(b),
    ensures
        changes_only(a, b, set![Part::UnpairedProposals]),
{
}

/// What [`Consensus::same_except_unpaired_shares`] keeps: every part but UnpairedShares.
pub proof fn lemma_same_except_unpaired_shares(a: &Consensus, b: &Consensus)
    requires
        a.same_except_unpaired_shares(b),
    ensures
        changes_only(a, b, set![Part::UnpairedShares]),
{
}

/// What [`Consensus::same_except_states_verified`] keeps: every part but StatesVerified.
pub proof fn lemma_same_except_states_verified(a: &Consensus, b: &Consensus)
    requires
        a.same_except_states_verified(b),
    ensures
        changes_only(a, b, set![Part::StatesVerified]),
{
}

/// What [`Consensus::same_except_headers`] keeps: every part but Headers.
pub proof fn lemma_same_except_headers(a: &Consensus, b: &Consensus)
    requires
        a.same_except_headers(b),
    ensures
        changes_only(a, b, set![Part::Headers]),
{
}

/// What [`Consensus::same_except_reconstructed`] keeps: every part but Reconstructed.
pub proof fn lemma_same_except_reconstructed(a: &Consensus, b: &Consensus)
    requires
        a.same_except_reconstructed(b),
    ensures
        changes_only(a, b, set![Part::Reconstructed]),
{
}

/// What [`Consensus::same_except_drb`] keeps: every part but DrbResults.
pub proof fn lemma_same_except_drb(a: &Consensus, b: &Consensus)
    requires
        a.same_except_drb(b),
    ensures
        changes_only(a, b, set![Part::DrbResults]),
{
}

/// What [`Consensus::same_except_blocks`] keeps: every part but Blocks.
pub proof fn lemma_same_except_blocks(a: &Consensus, b: &Consensus)
    requires
        a.same_except_blocks(b),
    ensures
        changes_only(a, b, set![Part::Blocks]),
{
}

/// What [`Consensus::same_except_certs1_drb`] keeps: every part but Certs1, DrbResults.
pub proof fn lemma_same_except_certs1_drb(a: &Consensus, b: &Consensus)
    requires
        a.same_except_certs1_drb(b),
    ensures
        changes_only(a, b, set![Part::Certs1, Part::DrbResults]),
{
}

/// What [`Consensus::same_except_certs2`] keeps: every part but Certs2.
pub proof fn lemma_same_except_certs2(a: &Consensus, b: &Consensus)
    requires
        a.same_except_certs2(b),
    ensures
        changes_only(a, b, set![Part::Certs2]),
{
}

/// What [`Consensus::same_except_root_certs`] keeps: every part but StateCerts, Certs1, DrbResults.
pub proof fn lemma_same_except_root_certs(a: &Consensus, b: &Consensus)
    requires
        a.same_except_root_certs(b),
    ensures
        changes_only(a, b, set![Part::StateCerts, Part::Certs1, Part::DrbResults]),
{
}

/// What [`Consensus::same_except_epoch_change`] keeps: every part but CurrentView, CurrentEpoch, Proposals, Certs1, Certs2, DrbResults.
pub proof fn lemma_same_except_epoch_change(a: &Consensus, b: &Consensus)
    requires
        a.same_except_epoch_change(b),
    ensures
        changes_only(a, b, set![Part::CurrentView, Part::CurrentEpoch, Part::Proposals, Part::Certs1, Part::Certs2, Part::DrbResults]),
{
}

/// What [`Consensus::same_except_fetched`] keeps: every part but Proposals, Signed, Leaves, DrbResults.
pub proof fn lemma_same_except_fetched(a: &Consensus, b: &Consensus)
    requires
        a.same_except_fetched(b),
    ensures
        changes_only(a, b, set![Part::Proposals, Part::Signed, Part::Leaves, Part::DrbResults]),
{
}

/// What [`Consensus::same_except_proposal_taken`] keeps: every part but Proposals, Signed, Leaves, VidShares, DrbResults, StateCerts, UnpairedProposals, UnpairedShares.
pub proof fn lemma_same_except_proposal_taken(a: &Consensus, b: &Consensus)
    requires
        a.same_except_proposal_taken(b),
    ensures
        changes_only(a, b, set![Part::Proposals, Part::Signed, Part::Leaves, Part::VidShares, Part::DrbResults, Part::StateCerts, Part::UnpairedProposals, Part::UnpairedShares]),
{
}

/// What [`Consensus::same_except_stored`] keeps: every part but StoredProposals, StoredVids, StoredVoteActions, StoredProposes, StoredHighQc, PendingVote1, PendingVote2, PendingProposals.
pub proof fn lemma_same_except_stored(a: &Consensus, b: &Consensus)
    requires
        a.same_except_stored(b),
    ensures
        changes_only(a, b, set![Part::StoredProposals, Part::StoredVids, Part::StoredVoteActions, Part::StoredProposes, Part::StoredHighQc, Part::PendingVote1, Part::PendingVote2, Part::PendingProposals]),
{
}

/// What [`Consensus::same_except_dropped_proposal`] keeps: every part but Proposals, Leaves, VidShares.
pub proof fn lemma_same_except_dropped_proposal(a: &Consensus, b: &Consensus)
    requires
        a.same_except_dropped_proposal(b),
    ensures
        changes_only(a, b, set![Part::Proposals, Part::Leaves, Part::VidShares]),
{
}

/// What [`Consensus::same_except_timeout_cert`] keeps: every part but TimeoutCerts, CurrentView, CurrentEpoch.
pub proof fn lemma_same_except_timeout_cert(a: &Consensus, b: &Consensus)
    requires
        a.same_except_timeout_cert(b),
    ensures
        changes_only(a, b, set![Part::TimeoutCerts, Part::CurrentView, Part::CurrentEpoch]),
{
}

/// What [`Consensus::same_except_proposal_held`] keeps: every part but PendingProposals, RequestedProposes.
pub proof fn lemma_same_except_proposal_held(a: &Consensus, b: &Consensus)
    requires
        a.same_except_proposal_held(b),
    ensures
        changes_only(a, b, set![Part::PendingProposals, Part::RequestedProposes]),
{
}

/// What [`Consensus::same_except_voted_1`] keeps: every part but Voted1.
pub proof fn lemma_same_except_voted_1(a: &Consensus, b: &Consensus)
    requires
        a.same_except_voted_1(b),
    ensures
        changes_only(a, b, set![Part::Voted1]),
{
}

/// What [`Consensus::same_except_vote1_held`] keeps: every part but Voted1, PendingVote1, RequestedVotes.
pub proof fn lemma_same_except_vote1_held(a: &Consensus, b: &Consensus)
    requires
        a.same_except_vote1_held(b),
    ensures
        changes_only(a, b, set![Part::Voted1, Part::PendingVote1, Part::RequestedVotes]),
{
}

/// What [`Consensus::same_except_voted_2`] keeps: every part but Voted2.
pub proof fn lemma_same_except_voted_2(a: &Consensus, b: &Consensus)
    requires
        a.same_except_voted_2(b),
    ensures
        changes_only(a, b, set![Part::Voted2]),
{
}

/// What [`Consensus::same_except_vote2_held`] keeps: every part but Voted2, PendingVote2, RequestedVotes.
pub proof fn lemma_same_except_vote2_held(a: &Consensus, b: &Consensus)
    requires
        a.same_except_vote2_held(b),
    ensures
        changes_only(a, b, set![Part::Voted2, Part::PendingVote2, Part::RequestedVotes]),
{
}

/// What [`Consensus::same_except_decisions`] keeps: every part but Decided, LastDecidedView, LastDecidedLeaf.
pub proof fn lemma_same_except_decisions(a: &Consensus, b: &Consensus)
    requires
        a.same_except_decisions(b),
    ensures
        changes_only(a, b, set![Part::Decided, Part::LastDecidedView, Part::LastDecidedLeaf]),
{
}

/// What [`Consensus::same_except_proposed`] keeps: every part but Proposed.
pub proof fn lemma_same_except_proposed(a: &Consensus, b: &Consensus)
    requires
        a.same_except_proposed(b),
    ensures
        changes_only(a, b, set![Part::Proposed]),
{
}

/// What [`Consensus::same_except_lock_and_certs`] keeps: every part but Locked, Certs1.
pub proof fn lemma_same_except_lock_and_certs(a: &Consensus, b: &Consensus)
    requires
        a.same_except_lock_and_certs(b),
    ensures
        changes_only(a, b, set![Part::Locked, Part::Certs1]),
{
}

/// What [`Consensus::same_except_lock_view_epoch`] keeps: every part but Locked, CurrentView, CurrentEpoch.
pub proof fn lemma_same_except_lock_view_epoch(a: &Consensus, b: &Consensus)
    requires
        a.same_except_lock_view_epoch(b),
    ensures
        changes_only(a, b, set![Part::Locked, Part::CurrentView, Part::CurrentEpoch]),
{
}

/// What [`Consensus::retry_keeps`] keeps: every part but the votes and
/// what is held back of them, the vote actions asked for, the lock, view
/// and epoch, the decisions and the views proposed in; the first
/// certificates agree too.
pub proof fn lemma_retry_keeps(a: &Consensus, b: &Consensus)
    requires
        a.retry_keeps(b),
    ensures
        changes_only(a, b, set![Part::Voted1, Part::PendingVote1, Part::Voted2, Part::PendingVote2, Part::RequestedVotes,
            Part::Locked, Part::CurrentView, Part::CurrentEpoch, Part::Decided, Part::LastDecidedView,
            Part::LastDecidedLeaf, Part::Proposed]),
        b.spec_certs1() == a.spec_certs1(),
{
}

/// What [`Consensus::keeps_decided_leaf`] says of the decided leaf.
pub proof fn lemma_keeps_decided_leaf(a: &Consensus, b: &Consensus)
    requires
        a.keeps_decided_leaf(b),
    ensures
        b.spec_last_decided_leaf() == a.spec_last_decided_leaf(),
{
}

/// `a` is no later than `b`, where `None` is earliest.
pub open spec fn opt_le(a: Option<u64>, b: Option<u64>) -> bool {
    match a {
        None => true,
        Some(x) => match b {
            None => false,
            Some(y) => x <= y,
        },
    }
}

pub open spec fn max_spec(a: u64, b: u64) -> u64 {
    if a >= b {
        a
    } else {
        b
    }
}

impl Consensus {
    pub closed spec fn spec_current_view(&self) -> u64 {
        self.current_view
    }

    pub closed spec fn spec_current_epoch(&self) -> Option<u64> {
        self.current_epoch
    }

    pub closed spec fn spec_timeout_view(&self) -> u64 {
        self.timeout_view
    }

    pub closed spec fn spec_restart_barred_view(&self) -> u64 {
        self.restart_barred_view
    }

    pub closed spec fn spec_last_decided_view(&self) -> u64 {
        self.last_decided_view
    }

    pub closed spec fn spec_last_decided_leaf(&self) -> Proposal {
        self.last_decided_leaf.proposal
    }

    pub closed spec fn spec_decide_floor_view(&self) -> u64 {
        self.decide_floor_view
    }

    pub closed spec fn spec_locked(&self) -> Option<Certificate1> {
        self.locked_cert
    }

    pub closed spec fn spec_stored_high_qc(&self) -> Option<u64> {
        self.stored_high_qc
    }

    pub closed spec fn spec_voted_1(&self) -> Set<u64> {
        self.voted_1_views@
    }

    pub closed spec fn spec_voted_2(&self) -> Set<u64> {
        self.voted_2_views@
    }

    pub closed spec fn spec_proposed(&self) -> Set<u64> {
        self.proposed_views@
    }

    pub closed spec fn spec_decided(&self) -> Set<u64> {
        self.decided_views@
    }

    pub closed spec fn spec_pending_vote1(&self) -> Map<u64, Vote1> {
        self.pending_vote1@
    }

    pub closed spec fn spec_pending_vote2(&self) -> Map<u64, (Vote2, u64)> {
        self.pending_vote2@
    }

    pub closed spec fn spec_proposals(&self) -> Map<u64, Proposal> {
        self.proposals@
    }

    pub closed spec fn spec_certs1(&self) -> Map<u64, Certificate1> {
        self.certs@
    }

    pub closed spec fn spec_certs2(&self) -> Map<u64, Certificate2> {
        self.certs2@
    }

    pub closed spec fn spec_timeout_certs(&self) -> Map<u64, TimeoutCertificate> {
        self.timeout_certs@
    }

    pub closed spec fn spec_state_certs(&self) -> Map<u64, StateCertificate> {
        self.state_certs@
    }

    pub closed spec fn spec_reconstructed(&self) -> Set<(u64, u64)> {
        self.blocks_reconstructed@
    }

    pub closed spec fn spec_pre_cutover(&self) -> Set<u64> {
        self.pre_cutover_views@
    }

    pub closed spec fn spec_leaves(&self) -> Map<u64, Proposal> {
        Map::new(|v: u64| self.leaves@.contains_key(v), |v: u64| self.leaves@[v].proposal)
    }

    pub closed spec fn spec_vid_shares(&self) -> Map<u64, VidShare> {
        self.vid_shares@
    }

    pub closed spec fn spec_drb_results(&self) -> Map<u64, u64> {
        self.drb_results@
    }

    pub closed spec fn spec_states_verified(&self) -> Map<u64, u64> {
        self.states_verified@
    }

    pub closed spec fn spec_headers(&self) -> Map<(u64, u64), BlockHeader> {
        self.headers@
    }

    pub closed spec fn spec_blocks(&self) -> Map<(u64, u64), Payload> {
        self.blocks@
    }

    /// Proposals this node built, signed and waiting to be persisted.
    pub closed spec fn spec_pending_proposals(&self) -> Map<u64, SignedProposal> {
        self.pending_proposal@
    }

    pub closed spec fn spec_public_key(&self) -> u64 {
        self.public_key
    }

    pub closed spec fn spec_epoch_height(&self) -> u64 {
        self.epoch_height
    }

    /// `next` differs from `self` at most in its state certificates.
    pub closed spec fn same_except_state_certs(&self, next: &Self) -> bool {
        *next == Consensus { state_certs: next.state_certs, ..*self }
    }

    /// `next` differs from `self` at most in its timeout barrier.
    pub closed spec fn same_except_timeout_view(&self, next: &Self) -> bool {
        *next == Consensus { timeout_view: next.timeout_view, ..*self }
    }

    /// `next` differs from `self` at most in its parked proposals.
    pub closed spec fn same_except_unpaired_proposals(&self, next: &Self) -> bool {
        *next == Consensus { unpaired_proposals: next.unpaired_proposals, ..*self }
    }

    /// `next` differs from `self` at most in its parked shares.
    pub closed spec fn same_except_unpaired_shares(&self, next: &Self) -> bool {
        *next == Consensus { unpaired_vid_shares: next.unpaired_vid_shares, ..*self }
    }

    /// Proposals waiting for this node's share of their payload, by view and
    /// payload commitment, with their senders.
    pub closed spec fn spec_unpaired_proposals(&self) -> Map<(u64, u64), (u64, SignedProposal)> {
        self.unpaired_proposals@
    }

    /// Shares of this node waiting for their proposal, by view and payload
    /// commitment.
    pub closed spec fn spec_unpaired_shares(&self) -> Map<(u64, u64), VidShare> {
        self.unpaired_vid_shares@
    }

    /// `next` differs from `self` at most in what retrying votes, decisions
    /// and proposals moves: the votes cast, pending and asked to be
    /// persisted, the lock and the view and epoch it leads to, the decisions,
    /// and the views proposed in; its first certificates stay as they are.
    pub closed spec fn retry_keeps(&self, next: &Self) -> bool {
        &&& *next == Consensus {
            voted_1_views: next.voted_1_views,
            pending_vote1: next.pending_vote1,
            voted_2_views: next.voted_2_views,
            pending_vote2: next.pending_vote2,
            requested_vote_actions: next.requested_vote_actions,
            locked_cert: next.locked_cert,
            certs: next.certs,
            current_view: next.current_view,
            current_epoch: next.current_epoch,
            decided_views: next.decided_views,
            last_decided_view: next.last_decided_view,
            last_decided_leaf: next.last_decided_leaf,
            proposed_views: next.proposed_views,
            ..*self
        }
        &&& next.spec_certs1() == self.spec_certs1()
    }

    /// `next` differs from `self` at most in its validated states.
    pub closed spec fn same_except_states_verified(&self, next: &Self) -> bool {
        *next == Consensus {
            states_verified: next.states_verified,
            ..*self
        }
    }

    /// `next` differs from `self` at most in its headers.
    pub closed spec fn same_except_headers(&self, next: &Self) -> bool {
        *next == Consensus {
            headers: next.headers,
            ..*self
        }
    }

    /// `next` differs from `self` at most in its reconstructed blocks.
    pub closed spec fn same_except_reconstructed(&self, next: &Self) -> bool {
        *next == Consensus {
            blocks_reconstructed: next.blocks_reconstructed,
            ..*self
        }
    }

    /// `next` differs from `self` at most in its DRB results.
    pub closed spec fn same_except_drb(&self, next: &Self) -> bool {
        *next == Consensus {
            drb_results: next.drb_results,
            ..*self
        }
    }

    /// `next` differs from `self` at most in its built blocks.
    pub closed spec fn same_except_blocks(&self, next: &Self) -> bool {
        *next == Consensus {
            blocks: next.blocks,
            ..*self
        }
    }

    /// `next` differs from `self` at most in its first certificates and DRB results.
    pub closed spec fn same_except_certs1_drb(&self, next: &Self) -> bool {
        *next == Consensus {
            certs: next.certs,
            drb_results: next.drb_results,
            ..*self
        }
    }

    /// `next` differs from `self` at most in its second certificates.
    pub closed spec fn same_except_certs2(&self, next: &Self) -> bool {
        *next == Consensus {
            certs2: next.certs2,
            ..*self
        }
    }

    /// `next` differs from `self` at most in its state certificates, first certificates and DRB results.
    pub closed spec fn same_except_root_certs(&self, next: &Self) -> bool {
        *next == Consensus {
            state_certs: next.state_certs,
            certs: next.certs,
            drb_results: next.drb_results,
            ..*self
        }
    }

    /// `next` differs from `self` at most in its view, epoch, proposals, certificates and DRB results.
    pub closed spec fn same_except_epoch_change(&self, next: &Self) -> bool {
        *next == Consensus {
            current_view: next.current_view,
            current_epoch: next.current_epoch,
            proposals: next.proposals,
            certs: next.certs,
            certs2: next.certs2,
            drb_results: next.drb_results,
            ..*self
        }
    }

    /// `next` differs from `self` at most in its proposals, their signed forms, leaves and DRB results.
    pub closed spec fn same_except_fetched(&self, next: &Self) -> bool {
        *next == Consensus {
            proposals: next.proposals,
            signed_proposals: next.signed_proposals,
            leaves: next.leaves,
            drb_results: next.drb_results,
            ..*self
        }
    }

    /// `next` differs from `self` at most in its proposals, their signed forms, leaves, shares, DRB results, state certificates and parked halves.
    pub closed spec fn same_except_proposal_taken(&self, next: &Self) -> bool {
        *next == Consensus {
            proposals: next.proposals,
            signed_proposals: next.signed_proposals,
            leaves: next.leaves,
            vid_shares: next.vid_shares,
            drb_results: next.drb_results,
            state_certs: next.state_certs,
            unpaired_proposals: next.unpaired_proposals,
            unpaired_vid_shares: next.unpaired_vid_shares,
            ..*self
        }
    }

    /// `next` differs from `self` at most in its storage records and what it holds back.
    pub closed spec fn same_except_stored(&self, next: &Self) -> bool {
        *next == Consensus {
            stored_proposals: next.stored_proposals,
            stored_vids: next.stored_vids,
            stored_vote_actions: next.stored_vote_actions,
            stored_propose_actions: next.stored_propose_actions,
            stored_high_qc: next.stored_high_qc,
            pending_vote1: next.pending_vote1,
            pending_vote2: next.pending_vote2,
            pending_proposal: next.pending_proposal,
            ..*self
        }
    }

    /// `next` differs from `self` at most in its proposals, leaves and shares.
    pub closed spec fn same_except_dropped_proposal(&self, next: &Self) -> bool {
        *next == Consensus {
            proposals: next.proposals,
            leaves: next.leaves,
            vid_shares: next.vid_shares,
            ..*self
        }
    }

    /// `next` differs from `self` at most in its timeout certificates, view and epoch.
    pub closed spec fn same_except_timeout_cert(&self, next: &Self) -> bool {
        *next == Consensus {
            timeout_certs: next.timeout_certs,
            current_view: next.current_view,
            current_epoch: next.current_epoch,
            ..*self
        }
    }

    /// `next` differs from `self` at most in its held proposals and the propose actions asked to be persisted.
    pub closed spec fn same_except_proposal_held(&self, next: &Self) -> bool {
        *next == Consensus {
            pending_proposal: next.pending_proposal,
            requested_propose_actions: next.requested_propose_actions,
            ..*self
        }
    }

    /// The views whose propose action this node asked to persist.
    pub closed spec fn spec_requested_proposes(&self) -> Set<u64> {
        self.requested_propose_actions@
    }

    /// The views whose vote action this node asked to persist.
    pub closed spec fn spec_requested_votes(&self) -> Set<u64> {
        self.requested_vote_actions@
    }

    /// `next` differs from `self` at most in the views voted in first.
    pub closed spec fn same_except_voted_1(&self, next: &Self) -> bool {
        *next == Consensus { voted_1_views: next.voted_1_views, ..*self }
    }

    /// `next` differs from `self` at most in the views voted in first, the
    /// first votes held back, and the vote actions asked to be persisted.
    pub closed spec fn same_except_vote1_held(&self, next: &Self) -> bool {
        *next == Consensus {
            voted_1_views: next.voted_1_views,
            pending_vote1: next.pending_vote1,
            requested_vote_actions: next.requested_vote_actions,
            ..*self
        }
    }

    /// `next` differs from `self` at most in the views voted in second.
    pub closed spec fn same_except_voted_2(&self, next: &Self) -> bool {
        *next == Consensus { voted_2_views: next.voted_2_views, ..*self }
    }

    /// `next` differs from `self` at most in the views voted in second, the
    /// second votes held back, and the vote actions asked to be persisted.
    pub closed spec fn same_except_vote2_held(&self, next: &Self) -> bool {
        *next == Consensus {
            voted_2_views: next.voted_2_views,
            pending_vote2: next.pending_vote2,
            requested_vote_actions: next.requested_vote_actions,
            ..*self
        }
    }

    /// `next` differs from `self` at most in the decided views, the decided
    /// view and its leaf.
    pub closed spec fn same_except_decisions(&self, next: &Self) -> bool {
        *next == Consensus {
            decided_views: next.decided_views,
            last_decided_view: next.last_decided_view,
            last_decided_leaf: next.last_decided_leaf,
            ..*self
        }
    }

    /// `next` holds the decided leaf of `self`, payload and all.
    pub closed spec fn keeps_decided_leaf(&self, next: &Self) -> bool {
        next.last_decided_leaf == self.last_decided_leaf
    }

    /// `next` differs from `self` at most in the views proposed in.
    pub closed spec fn same_except_proposed(&self, next: &Self) -> bool {
        *next == Consensus { proposed_views: next.proposed_views, ..*self }
    }

    /// `next` differs from `self` at most in its lock and its first certificates.
    pub closed spec fn same_except_lock_and_certs(&self, next: &Self) -> bool {
        *next == Consensus { locked_cert: next.locked_cert, certs: next.certs, ..*self }
    }

    /// The timeout certificate filed under the highest view, if any.
    pub open spec fn spec_last_timeout_cert(&self) -> Option<TimeoutCertificate> {
        let tcs = self.spec_timeout_certs();
        if tcs.dom().len() == 0 {
            None
        } else {
            let m = choose|m: u64| tcs.contains_key(m) && forall|v: u64| #[trigger] tcs.contains_key(v) ==> v <= m;
            Some(tcs[m])
        }
    }

    /// The highest certificate held: the locked QC or the latest timeout
    /// certificate, whichever has the higher view; a tie goes to the timeout
    /// certificate.
    pub open spec fn spec_catchup_evidence(&self) -> Option<CatchupEvidence> {
        match (self.spec_last_timeout_cert(), self.spec_locked()) {
            (Some(tc), Some(qc)) => if qc.view > tc.view {
                Some(CatchupEvidence::Qc(qc))
            } else {
                Some(CatchupEvidence::Tc(tc))
            },
            (Some(tc), None) => Some(CatchupEvidence::Tc(tc)),
            (None, Some(qc)) => Some(CatchupEvidence::Qc(qc)),
            (None, None) => None,
        }
    }

    /// The view of the locked certificate, if there is one.
    pub open spec fn spec_locked_view(&self) -> Option<u64> {
        match self.spec_locked() {
            Some(c) => Some(c.view),
            None => None,
        }
    }

    /// The newest view that can no longer be decided: it slides
    /// [`DECIDE_BUFFER`] views behind the decided view, and never below the
    /// anchor of a restart or cutover.
    pub open spec fn spec_decide_floor(&self) -> u64 {
        let slid = if self.spec_last_decided_view() >= DECIDE_BUFFER {
            (self.spec_last_decided_view() - DECIDE_BUFFER) as u64
        } else {
            0
        };
        max_spec(slid, self.spec_decide_floor_view())
    }

    /// Every first certificate is filed under its own view.
    pub open spec fn certs_keyed(&self) -> bool {
        forall|v: u64| #[trigger] self.spec_certs1().contains_key(v) ==> self.spec_certs1()[v].view == v
    }

    /// Every proposal and every second certificate is filed under its own view.
    pub open spec fn others_keyed(&self) -> bool {
        &&& forall|v: u64| #[trigger] self.spec_proposals().contains_key(v) ==> self.spec_proposals()[v].view == v
        &&& forall|v: u64| #[trigger] self.spec_certs2().contains_key(v) ==> self.spec_certs2()[v].view == v
    }

    /// Well-formedness: certificates and proposals are filed under their views, every pending vote is for the view it is filed under
    /// and already counted as cast, and a pending second vote rests on a lock
    /// at least as new as its view.
    pub open spec fn wf(&self) -> bool {
        &&& self.certs_keyed()
        &&& self.others_keyed()
        &&& forall|v: u64| #[trigger]
            self.spec_pending_vote1().contains_key(v) ==> self.spec_voted_1().contains(v)
                && self.spec_pending_vote1()[v].view == v
        &&& forall|v: u64| #[trigger]
            self.spec_pending_vote2().contains_key(v) ==> {
                let (vote, required) = self.spec_pending_vote2()[v];
                &&& self.spec_voted_2().contains(v)
                &&& vote.view == v
                &&& required >= v
                &&& opt_le(Some(required), self.spec_locked_view())
            }
    }

    /// What no call of [`Consensus::apply`] undoes: views, locks and the
    /// persistence watermark only move forward, the decided leaf changes
    /// only with the decided view; the views voted in, proposed
    /// in and decided only grow; and a vote becomes pending only in a view
    /// it had not yet been cast in.
    pub open spec fn advances(&self, next: &Self) -> bool {
        &&& self.spec_current_view() <= next.spec_current_view()
        &&& self.spec_timeout_view() <= next.spec_timeout_view()
        &&& self.spec_restart_barred_view() <= next.spec_restart_barred_view()
        &&& self.spec_last_decided_view() <= next.spec_last_decided_view()
        &&& next.spec_last_decided_view() == self.spec_last_decided_view() ==> self.keeps_decided_leaf(next)
        &&& self.spec_decide_floor_view() <= next.spec_decide_floor_view()
        &&& opt_le(self.spec_locked_view(), next.spec_locked_view())
        &&& opt_le(self.spec_stored_high_qc(), next.spec_stored_high_qc())
        &&& self.spec_voted_1().subset_of(next.spec_voted_1())
        &&& self.spec_voted_2().subset_of(next.spec_voted_2())
        &&& self.spec_proposed().subset_of(next.spec_proposed())
        &&& self.spec_decided().subset_of(next.spec_decided())
        &&& self.spec_epoch_height() == next.spec_epoch_height()
        &&& self.spec_public_key() == next.spec_public_key()
        &&& forall|v: u64| #[trigger]
            next.spec_pending_vote1().contains_key(v) ==> self.spec_pending_vote1().contains_key(v)
                || !self.spec_voted_1().contains(v)
        &&& forall|v: u64| #[trigger]
            next.spec_pending_vote2().contains_key(v) ==> self.spec_pending_vote2().contains_key(v)
                || !self.spec_voted_2().contains(v)
    }

    /// What an output emitted by a run that started in `start` and ended in
    /// `end` is owed.
    ///
    /// - A first vote is for a view above the timeout barrier at the start,
    ///   counted as cast, no longer pending, and either newly cast or
    ///   released from the pending votes.
    /// - A second vote is counted as cast, rests on a lock at least as new as
    ///   its view that is persisted, and is either newly cast or released.
    /// - A decision names a chain of leaves, newest first, each certified by
    ///   the justify QC of the one before, none decided before and all above
    ///   the decide floor; the certificates certify its newest leaf.
    /// - A view change never announces a view beyond the current one.
    pub open spec fn output_ok(start: &Self, end: &Self, o: ConsensusOutput) -> bool {
        match o {
            ConsensusOutput::SendVote1(v) => {
                &&& v.view > start.spec_timeout_view()
                &&& end.spec_voted_1().contains(v.view)
                &&& !end.spec_pending_vote1().contains_key(v.view)
                &&& (!start.spec_voted_1().contains(v.view) || start.spec_pending_vote1().contains_key(
                    v.view,
                ))
            },
            ConsensusOutput::SendVote2(v) => {
                &&& end.spec_voted_2().contains(v.view)
                &&& !end.spec_pending_vote2().contains_key(v.view)
                &&& opt_le(Some(v.view), end.spec_stored_high_qc())
                &&& opt_le(Some(v.view), end.spec_locked_view())
                &&& (!start.spec_voted_2().contains(v.view) || start.spec_pending_vote2().contains_key(
                    v.view,
                ))
            },
            ConsensusOutput::LeafDecided { leaves, cert1, cert2, .. } => decision_ok(
                start,
                end,
                leaves@,
                cert1,
                cert2,
            ),
            ConsensusOutput::ViewChanged(v, _) => v <= end.spec_current_view(),
            _ => true,
        }
    }

    /// One run from `start` to `end`, which found the outbox holding `before`
    /// and left it holding `after`.
    pub open spec fn step(start: &Self, end: &Self, before: Seq<ConsensusOutput>, after: Seq<ConsensusOutput>) -> bool {
        &&& start.advances(end)
        &&& (start.wf() ==> end.wf())
        &&& before.len() <= after.len()
        &&& after.subrange(0, before.len() as int) == before
        &&& (start.wf() ==> forall|i: int|
            before.len() <= i < after.len() ==> Self::output_ok(start, end, #[trigger] after[i]))
        &&& (start.wf() ==> forall|i: int, j: int|
            before.len() <= i < j < after.len() ==> !repeats(#[trigger] after[i], #[trigger] after[j]))
    }
}

/// Whether `y` repeats `x`: two votes of the same phase for the same view,
/// or two decisions that share a view.
pub open spec fn repeats(x: ConsensusOutput, y: ConsensusOutput) -> bool {
    ||| (x matches ConsensusOutput::SendVote1(a) && y matches ConsensusOutput::SendVote1(b) && a.view == b.view)
    ||| (x matches ConsensusOutput::SendVote2(a) && y matches ConsensusOutput::SendVote2(b) && a.view == b.view)
    ||| (x matches ConsensusOutput::LeafDecided { leaves: la, .. } && y matches ConsensusOutput::LeafDecided {
        leaves: lb,
        ..
    } && exists|i: int, j: int|
        0 <= i < la@.len() && 0 <= j < lb@.len() && #[trigger] la@[i].proposal.view
            == #[trigger] lb@[j].proposal.view)
}

/// Whether `o`, emitted from `state`, could repeat an output of a run that
/// reached `state`: a vote for a view cast in and not pending, or a decision
/// of a view already decided.
pub open spec fn settled(state: &Consensus, o: ConsensusOutput) -> bool {
    ||| (o matches ConsensusOutput::SendVote1(v) && state.spec_voted_1().contains(v.view)
        && !state.spec_pending_vote1().contains_key(v.view))
    ||| (o matches ConsensusOutput::SendVote2(v) && state.spec_voted_2().contains(v.view)
        && !state.spec_pending_vote2().contains_key(v.view))
    ||| (o matches ConsensusOutput::LeafDecided { leaves, .. } && exists|i: int|
        0 <= i < leaves@.len() && state.spec_decided().contains(#[trigger] leaves@[i].proposal.view))
}

/// A decision: `leaves` is a non-empty chain, newest first, in which each
/// leaf's justify QC certifies the next; none of its views was decided at the
/// start and all lie above the decide floor; all are decided at the end; the
/// second certificate certifies the newest leaf, and the first is from its view.
pub open spec fn decision_ok(start: &Consensus, end: &Consensus, leaves: Seq<Leaf>, cert1: Certificate1, cert2: Option<Certificate2>) -> bool {
    &&& leaves.len() >= 1
    &&& cert1.view == leaves[0].proposal.view
    &&& (match cert2 {
        Some(c2) => c2.view == leaves[0].proposal.view && c2.leaf_commit
            == leaves[0].proposal.leaf_commit,
        None => false,
    })
    &&& forall|i: int|
        0 <= i < leaves.len() ==> {
            &&& #[trigger] leaves[i].proposal.view > start.spec_decide_floor()
            &&& !start.spec_decided().contains(leaves[i].proposal.view)
            &&& end.spec_decided().contains(leaves[i].proposal.view)
        }
    &&& forall|i: int|
        0 <= i < leaves.len() - 1 ==> {
            &&& #[trigger] leaves[i + 1].proposal.view == leaves[i].proposal.justify_qc.view
            &&& leaves[i + 1].proposal.leaf_commit == leaves[i].proposal.justify_qc.leaf_commit
            &&& leaves[i + 1].proposal.view < leaves[i].proposal.view
        }
}


/// Runs compose: two consecutive runs make one.
pub proof fn lemma_step_trans(
    a: &Consensus,
    b: &Consensus,
    c: &Consensus,
    oa: Seq<ConsensusOutput>,
    ob: Seq<ConsensusOutput>,
    oc: Seq<ConsensusOutput>,
)
    requires
        Consensus::step(a, b, oa, ob),
        Consensus::step(b, c, ob, oc),
    ensures
        Consensus::step(a, c, oa, oc),
{
    assert(oc.subrange(0, oa.len() as int) =~= oa) by {
        assert(oc.subrange(0, ob.len() as int) == ob);
        assert forall|i: int| 0 <= i < oa.len() implies oc.subrange(0, oa.len() as int)[i] == oa[i] by {
            assert(oc.subrange(0, ob.len() as int)[i] == oc[i]);
            assert(ob.subrange(0, oa.len() as int)[i] == ob[i]);
        }
    }
    if a.wf() {
        assert forall|i: int, j: int| oa.len() <= i < j < oc.len() implies !repeats(#[trigger] oc[i], #[trigger] oc[j]) by {
            if j < ob.len() {
                assert(oc.subrange(0, ob.len() as int)[i] == oc[i]);
                assert(oc.subrange(0, ob.len() as int)[j] == oc[j]);
                assert(!repeats(ob[i], ob[j]));
            } else if i < ob.len() {
                assert(oc.subrange(0, ob.len() as int)[i] == oc[i]);
                assert(Consensus::output_ok(a, b, ob[i]));
                assert(Consensus::output_ok(b, c, oc[j]));
            } else {
                assert(!repeats(oc[i], oc[j]));
            }
        }
        assert forall|i: int| oa.len() <= i < oc.len() implies Consensus::output_ok(
            a,
            c,
            #[trigger] oc[i],
        ) by {
            if i < ob.len() {
                assert(oc.subrange(0, ob.len() as int)[i] == oc[i]);
                assert(ob[i] == oc[i]);
                assert(Consensus::output_ok(a, b, ob[i]));
                lemma_output_ok_stable(a, b, c, ob[i]);
            } else {
                assert(Consensus::output_ok(b, c, oc[i]));
                lemma_output_ok_lift(a, b, c, oc[i]);
            }
        }
    }
}

/// A run that changes nothing.
pub proof fn lemma_step_refl(a: &Consensus, oa: Seq<ConsensusOutput>)
    ensures
        Consensus::step(a, a, oa, oa),
{
    assert(oa.subrange(0, oa.len() as int) =~= oa);
}

/// What an output is owed stays true as the state advances further.
proof fn lemma_output_ok_stable(a: &Consensus, b: &Consensus, c: &Consensus, o: ConsensusOutput)
    requires
        Consensus::output_ok(a, b, o),
        b.advances(c),
    ensures
        Consensus::output_ok(a, c, o),
{
    match o {
        ConsensusOutput::LeafDecided { leaves, cert1, cert2, .. } => {
            assert forall|i: int| 0 <= i < leaves@.len() implies {
                &&& #[trigger] leaves@[i].proposal.view > a.spec_decide_floor()
                &&& !a.spec_decided().contains(leaves@[i].proposal.view)
                &&& c.spec_decided().contains(leaves@[i].proposal.view)
            } by {
                assert(b.spec_decided().contains(leaves@[i].proposal.view));
            }
        },
        _ => {},
    }
}

/// An output owed something from a later start is owed it from an earlier one.
proof fn lemma_output_ok_lift(a: &Consensus, b: &Consensus, c: &Consensus, o: ConsensusOutput)
    requires
        Consensus::output_ok(b, c, o),
        a.advances(b),
    ensures
        Consensus::output_ok(a, c, o),
{
    match o {
        ConsensusOutput::LeafDecided { leaves, cert1, cert2, .. } => {
            assert(a.spec_decide_floor() <= b.spec_decide_floor());
            assert forall|i: int| 0 <= i < leaves@.len() implies {
                &&& #[trigger] leaves@[i].proposal.view > a.spec_decide_floor()
                &&& !a.spec_decided().contains(leaves@[i].proposal.view)
                &&& c.spec_decided().contains(leaves@[i].proposal.view)
            } by {
                assert(leaves@[i].proposal.view > b.spec_decide_floor());
                assert(!b.spec_decided().contains(leaves@[i].proposal.view));
            }
        },
        _ => {},
    }
}

/// `base` with each proposal of `ps` filed under its view, later ones
/// replacing earlier ones.
pub open spec fn seeded(base: Map<u64, Proposal>, ps: Seq<Proposal>) -> Map<u64, Proposal>
    decreases ps.len(),
{
    if ps.len() == 0 {
        base
    } else {
        seeded(base, ps.drop_last()).insert(ps.last().view, ps.last())
    }
}

impl Consensus {
    pub fn new(public_key: u64, genesis_leaf: Leaf, epoch_height: u64) -> (r: Self)
        ensures
            r.wf(),
            r.spec_public_key() == public_key,
            r.spec_epoch_height() == epoch_height,
            r.spec_last_decided_view() == genesis_leaf.proposal.view,
            r.spec_last_decided_leaf() == genesis_leaf.proposal,
            r.spec_decided() == set![genesis_leaf.proposal.view],
            r.spec_decide_floor_view() == 0,
            r.spec_current_view() == 0,
            r.spec_current_epoch() is None,
            r.spec_timeout_view() == 0,
            r.spec_restart_barred_view() == 0,
            r.spec_locked() is None,
            r.spec_stored_high_qc() is None,
            r.spec_voted_1().is_empty(),
            r.spec_voted_2().is_empty(),
            r.spec_proposed().is_empty(),
            r.spec_proposals().is_empty(),
            r.spec_certs1().is_empty(),
            r.spec_certs2().is_empty(),
            r.spec_timeout_certs().is_empty(),
            r.spec_pending_vote1().is_empty(),
            r.spec_pending_vote2().is_empty(),
    {
        let last_decided_view = genesis_leaf.proposal.view;
        let mut decided_views = BTreeSet::new();
        decided_views.insert(last_decided_view);
        let r = Consensus {
            proposals: BTreeMap::new(),
            signed_proposals: BTreeMap::new(),
            proposed_views: BTreeSet::new(),
            vid_shares: BTreeMap::new(),
            unpaired_proposals: BTreeMap::new(),
            unpaired_vid_shares: BTreeMap::new(),
            states_verified: BTreeMap::new(),
            blocks_reconstructed: BTreeSet::new(),
            blocks: BTreeMap::new(),
            certs: BTreeMap::new(),
            certs2: BTreeMap::new(),
            timeout_certs: BTreeMap::new(),
            locked_cert: None,
            headers: BTreeMap::new(),
            leaves: BTreeMap::new(),
            decided_views,
            decide_floor_view: 0,
            last_decided_view,
            last_decided_leaf: genesis_leaf,
            drb_results: BTreeMap::new(),
            voted_1_views: BTreeSet::new(),
            voted_2_views: BTreeSet::new(),
            stored_proposals: BTreeMap::new(),
            stored_vids: BTreeSet::new(),
            stored_vote_actions: BTreeSet::new(),
            stored_propose_actions: BTreeSet::new(),
            requested_vote_actions: BTreeSet::new(),
            requested_propose_actions: BTreeSet::new(),
            stored_high_qc: None,
            pending_vote1: BTreeMap::new(),
            pending_vote2: BTreeMap::new(),
            pending_proposal: BTreeMap::new(),
            pre_cutover_views: BTreeSet::new(),
            timeout_view: 0,
            restart_barred_view: 0,
            current_view: 0,
            current_epoch: None,
            public_key,
            state_certs: BTreeMap::new(),
            epoch_height,
        };
        assert(r.decided_views@ =~= set![last_decided_view]);
        r
    }

    /// Advance the locked-QC persistence watermark to `view` if it is newer.
    fn bump_stored_high_qc(&mut self, view: u64)
        ensures
            final(self).stored_high_qc == (match old(self).stored_high_qc {
                Some(cur) => if cur < view {
                    Some(view)
                } else {
                    Some(cur)
                },
                None => Some(view),
            }),
            *final(self) == (Consensus { stored_high_qc: final(self).stored_high_qc, ..*old(self) }),
    {
        match self.stored_high_qc {
            Some(cur) => if cur < view {
                self.stored_high_qc = Some(view);
            },
            None => {
                self.stored_high_qc = Some(view);
            },
        }
    }

    /// Whether the locked QC at view `required` is persisted.
    fn high_qc_persisted(&self, required: u64) -> (r: bool)
        ensures
            r == opt_le(Some(required), self.spec_stored_high_qc()),
    {
        match self.stored_high_qc {
            Some(stored) => stored >= required,
            None => false,
        }
    }
}

impl Consensus {
    /// Whether the parent block counts as reconstructed for voting: either its
    /// payload is held, or the locked QC certifies exactly this parent leaf (a
    /// lock is only taken on a reconstructed block).
    fn parent_reconstructed(&self, parent_view: u64, parent_block_commitment: u64, parent_leaf: u64) -> (r: bool)
        ensures
            r == (self.spec_reconstructed().contains((parent_view, parent_block_commitment)) || (
            match self.spec_locked() {
                Some(lock) => lock.view == parent_view && lock.leaf_commit == parent_leaf,
                None => false,
            })),
    {
        if self.blocks_reconstructed.contains(&(parent_view, parent_block_commitment)) {
            return true;
        }
        match &self.locked_cert {
            Some(lock) => lock.view == parent_view && lock.leaf_commit == parent_leaf,
            None => false,
        }
    }

    /// Seed a parent certificate and proposal so the leader of the next view
    /// can propose without outside help: the certificate becomes the lock, and
    /// is persisted already since it was loaded from storage. `reconstructed`
    /// are the (view, payload commitment) pairs whose blocks this node had
    /// reconstructed before a restart.
    pub fn seed_parent(&mut self, cert1: Certificate1, proposal: Proposal, reconstructed: Vec<(u64, u64)>)
        ensures
            final(self).spec_current_epoch() == Some(proposal.epoch),
            final(self).spec_locked() == Some(cert1),
            final(self).spec_stored_high_qc() == Some(
                match old(self).spec_stored_high_qc() {
                    Some(cur) => max_spec(cur, cert1.view),
                    None => cert1.view,
                },
            ),
            final(self).spec_certs1() == old(self).spec_certs1().insert(cert1.view, cert1),
            final(self).spec_proposals() == old(self).spec_proposals().insert(proposal.view, proposal),
            final(self).spec_reconstructed() == old(self).spec_reconstructed().union(reconstructed@.to_set()),
            final(self).spec_current_view() == old(self).spec_current_view(),
            final(self).spec_last_decided_view() == old(self).spec_last_decided_view(),
            old(self).wf() && opt_le(old(self).spec_locked_view(), Some(cert1.view)) ==> final(self).wf(),
            opt_le(old(self).spec_locked_view(), Some(cert1.view)) ==> old(self).advances(final(self)),
    {
        self.current_epoch = Some(proposal.epoch);
        self.bump_stored_high_qc(cert1.view);
        self.certs.insert(cert1.view, cert1);
        self.locked_cert = Some(cert1);
        self.proposals.insert(proposal.view, proposal);
        let ghost base = self.blocks_reconstructed@;
        let ghost pre = *self;
        let mut i: usize = 0;
        while i < reconstructed.len()
            invariant
                0 <= i <= reconstructed.len(),
                *self == (Consensus { blocks_reconstructed: self.blocks_reconstructed, ..pre }),
                self.blocks_reconstructed@ == base.union(reconstructed@.subrange(0, i as int).to_set()),
            decreases reconstructed.len() - i,
        {
            let pair = reconstructed[i];
            self.blocks_reconstructed.insert(pair);
            assert(reconstructed@.subrange(0, i as int + 1) == reconstructed@.subrange(0, i as int).push(pair));
            i += 1;
            assert(self.blocks_reconstructed@ =~= base.union(reconstructed@.subrange(0, i as int).to_set()));
        }
        assert(reconstructed@.subrange(0, reconstructed.len() as int) == reconstructed@);
        proof {
            if old(self).wf() && opt_le(old(self).spec_locked_view(), Some(cert1.view)) {
                assert forall|v: u64| #[trigger] self.spec_proposals().contains_key(v) implies self.spec_proposals()[v].view == v by {
                    if v != proposal.view {
                        assert(old(self).spec_proposals().contains_key(v));
                    }
                }
                lemma_wf_frame(old(self), self);
            }
        }
    }

    /// Seed proposals loaded from storage on restart, so the decision walk can
    /// follow justify QCs through views the node had already seen.
    pub fn seed_proposals(&mut self, proposals: Vec<Proposal>)
        ensures
            final(self).spec_proposals() == seeded(old(self).spec_proposals(), proposals@),
            final(self).spec_leaves() == seeded(old(self).spec_leaves(), proposals@),
            old(self).advances(final(self)),
            old(self).wf() ==> final(self).wf(),
    {
        let ghost base = self.proposals@;
        let ghost base_leaves = self.spec_leaves();
        let mut i: usize = 0;
        while i < proposals.len()
            invariant
                0 <= i <= proposals.len(),
                self.proposals@ == seeded(base, proposals@.subrange(0, i as int)),
                self.spec_leaves() == seeded(base_leaves, proposals@.subrange(0, i as int)),
                *self == (Consensus { proposals: self.proposals, leaves: self.leaves, ..*old(self) }),
                old(self).wf() ==> forall|v: u64| #[trigger] self.spec_proposals().contains_key(v) ==> self.spec_proposals()[v].view == v,
            decreases proposals.len() - i,
        {
            let p = proposals[i];
            let ghost before = self.proposals@;
            let ghost before_s = *self;
            self.leaves.insert(p.view, Leaf { proposal: p, payload: None });
            self.proposals.insert(p.view, p);
            assert(old(self).wf() ==> forall|v: u64| #[trigger] self.spec_proposals().contains_key(v) ==> self.spec_proposals()[v].view == v) by {
                if old(self).wf() {
                    assert forall|v: u64| #[trigger] self.spec_proposals().contains_key(v) implies self.spec_proposals()[v].view == v by {
                        if v != p.view {
                            assert(before_s.spec_proposals().contains_key(v));
                        }
                    }
                }
            }
            assert(proposals@.subrange(0, i as int + 1).drop_last() == proposals@.subrange(0, i as int));
            i += 1;
            assert(self.spec_leaves() =~= seeded(base_leaves, proposals@.subrange(0, i as int)));
        }
        assert(proposals@.subrange(0, proposals.len() as int) == proposals@);
        proof {
            if old(self).wf() {
                lemma_wf_frame(old(self), self);
            }
        }
    }

    /// Restore the locked QC persisted on a prior run. A loaded lock is
    /// persisted, so it also advances the persistence watermark; it replaces
    /// the current lock only if it is newer.
    pub fn seed_locked_cert(&mut self, cert1: Certificate1)
        ensures
            final(self).spec_locked() == (if old(self).spec_locked() is None || old(self).spec_locked().unwrap().view < cert1.view {
                Some(cert1)
            } else {
                old(self).spec_locked()
            }),
            final(self).spec_certs1() == (if old(self).spec_certs1().contains_key(cert1.view) {
                old(self).spec_certs1()
            } else {
                old(self).spec_certs1().insert(cert1.view, cert1)
            }),
            final(self).spec_stored_high_qc() == Some(
                match old(self).spec_stored_high_qc() {
                    Some(cur) => max_spec(cur, cert1.view),
                    None => cert1.view,
                },
            ),
            old(self).advances(final(self)),
            old(self).wf() ==> final(self).wf(),
    {
        let view = cert1.view;
        self.bump_stored_high_qc(view);
        proof {
            if old(self).wf() {
                lemma_wf_frame(old(self), self);
            }
        }
        self.register_legacy_qc(&cert1);
    }

    /// Seed a state certificate loaded from storage on restart.
    pub fn seed_state_cert(&mut self, state_cert: StateCertificate)
        ensures
            final(self).spec_state_certs() == old(self).spec_state_certs().insert(state_cert.epoch, state_cert),
            old(self).same_except_state_certs(final(self)),
    {
        self.state_certs.insert(state_cert.epoch, state_cert);
    }

    /// File `justify_qc` as the first certificate of its view unless one is
    /// there already, and take it as the lock if it is newer.
    pub(crate) fn register_legacy_qc(&mut self, justify_qc: &Certificate1)
        ensures
            final(self).spec_locked() == (if old(self).spec_locked() is None || old(self).spec_locked().unwrap().view < justify_qc.view {
                Some(*justify_qc)
            } else {
                old(self).spec_locked()
            }),
            final(self).spec_certs1() == (if old(self).spec_certs1().contains_key(justify_qc.view) {
                old(self).spec_certs1()
            } else {
                old(self).spec_certs1().insert(justify_qc.view, *justify_qc)
            }),
            old(self).same_except_lock_and_certs(final(self)),
            old(self).advances(final(self)),
            old(self).wf() ==> final(self).wf(),
    {
        let parent_view = justify_qc.view;
        if !self.certs.contains_key(&parent_view) {
            self.certs.insert(parent_view, *justify_qc);
        }
        let newer = match &self.locked_cert {
            None => true,
            Some(locked) => locked.view < parent_view,
        };
        if newer {
            self.locked_cert = Some(*justify_qc);
        }
        proof {
            if old(self).wf() {
                lemma_wf_frame(old(self), self);
            }
        }
    }
}

/// Well-formedness survives any change that keeps the pending votes, keeps
/// the votes cast and does not move the lock back.
proof fn lemma_wf_frame(a: &Consensus, b: &Consensus)
    requires
        a.wf(),
        b.spec_proposals() == a.spec_proposals() || b.spec_proposals().submap_of(a.spec_proposals()) || (forall|v: u64| #[trigger] b.spec_proposals().contains_key(v) ==> b.spec_proposals()[v].view == v),
        b.spec_certs2() == a.spec_certs2() || b.spec_certs2().submap_of(a.spec_certs2()) || (forall|v: u64| #[trigger] b.spec_certs2().contains_key(v) ==> b.spec_certs2()[v].view == v),
        b.spec_certs1() == a.spec_certs1() || b.spec_certs1().submap_of(a.spec_certs1()) || b.certs_keyed(),
        b.spec_pending_vote1() == a.spec_pending_vote1(),
        b.spec_pending_vote2() == a.spec_pending_vote2(),
        a.spec_voted_1().subset_of(b.spec_voted_1()),
        a.spec_voted_2().subset_of(b.spec_voted_2()),
        opt_le(a.spec_locked_view(), b.spec_locked_view()),
    ensures
        b.wf(),
{
    assert forall|v: u64| #[trigger] b.spec_certs1().contains_key(v) implies b.spec_certs1()[v].view == v by {
        if b.spec_certs1() == a.spec_certs1() || b.spec_certs1().submap_of(a.spec_certs1()) {
            assert(a.spec_certs1().contains_key(v));
        }
    }
    assert forall|v: u64| #[trigger] b.spec_proposals().contains_key(v) implies b.spec_proposals()[v].view == v by {
        if b.spec_proposals() == a.spec_proposals() || b.spec_proposals().submap_of(a.spec_proposals()) {
            assert(a.spec_proposals().contains_key(v));
        }
    }
    assert forall|v: u64| #[trigger] b.spec_certs2().contains_key(v) implies b.spec_certs2()[v].view == v by {
        if b.spec_certs2() == a.spec_certs2() || b.spec_certs2().submap_of(a.spec_certs2()) {
            assert(a.spec_certs2().contains_key(v));
        }
    }
    assert forall|v: u64| #[trigger] b.spec_pending_vote2().contains_key(v) implies {
        let (vote, required) = b.spec_pending_vote2()[v];
        &&& b.spec_voted_2().contains(v)
        &&& vote.view == v
        &&& required >= v
        &&& opt_le(Some(required), b.spec_locked_view())
    } by {
        assert(a.spec_pending_vote2().contains_key(v));
    }
    assert forall|v: u64| #[trigger] b.spec_pending_vote1().contains_key(v) implies b.spec_voted_1().contains(v)
        && b.spec_pending_vote1()[v].view == v by {
        assert(a.spec_pending_vote1().contains_key(v));
    }
}

/// The proposal a leaf carried over from before the cutover stands for: its
/// epoch recomputed from its block number, and without the certificates only
/// this protocol attaches.
pub open spec fn cutover_proposal(leaf: Proposal, epoch_height: u64) -> Proposal {
    Proposal {
        epoch: spec_epoch_from_block_number(leaf.block_header.block_number, epoch_height) as u64,
        next_epoch_justify_qc: None,
        state_cert: None,
        ..leaf
    }
}

pub open spec fn cutover_proposals(leaves: Seq<Leaf>, epoch_height: u64) -> Seq<Proposal> {
    leaves.map_values(|l: Leaf| cutover_proposal(l.proposal, epoch_height))
}

/// `l` after taking `q` as the lock if it is newer.
pub open spec fn lock_step(l: Option<Certificate1>, q: Certificate1) -> Option<Certificate1> {
    if l is None || l.unwrap().view < q.view {
        Some(q)
    } else {
        l
    }
}

/// The lock after taking each of `qs`, in order, where it is newer.
pub open spec fn locks_through(l: Option<Certificate1>, qs: Seq<Certificate1>) -> Option<Certificate1>
    decreases qs.len(),
{
    if qs.len() == 0 {
        l
    } else {
        lock_step(locks_through(l, qs.drop_last()), qs.last())
    }
}

/// `m` with `q` filed under its view unless one is there already.
pub open spec fn file_step(m: Map<u64, Certificate1>, q: Certificate1) -> Map<u64, Certificate1> {
    if m.contains_key(q.view) {
        m
    } else {
        m.insert(q.view, q)
    }
}

/// The first certificates after filing each of `qs`, in order.
pub open spec fn files_through(m: Map<u64, Certificate1>, qs: Seq<Certificate1>) -> Map<u64, Certificate1>
    decreases qs.len(),
{
    if qs.len() == 0 {
        m
    } else {
        file_step(files_through(m, qs.drop_last()), qs.last())
    }
}

/// The certificates a seed hands over: the justify QC of each undecided
/// leaf, oldest first, then its highest QC.
pub open spec fn seed_qcs(seed: PreCutoverSeed) -> Seq<Certificate1> {
    let base = seed.undecided@.map_values(|l: Leaf| l.proposal.justify_qc);
    match seed.high_qc {
        Some(q) => base.push(q),
        None => base,
    }
}

/// The highest block number among `anchor` and the blocks of `leaves`.
pub open spec fn highest_block(anchor: u64, leaves: Seq<Leaf>) -> u64
    decreases leaves.len(),
{
    if leaves.len() == 0 {
        anchor
    } else {
        max_spec(highest_block(anchor, leaves.drop_last()), leaves.last().proposal.block_header.block_number)
    }
}

/// The epoch a seed moves the node into: that of its highest block, unless
/// the node is in a later one.
pub open spec fn seeded_epoch(current: Option<u64>, seed: PreCutoverSeed, epoch_height: u64) -> Option<u64> {
    let e = spec_epoch_from_block_number(
        highest_block(seed.decided_anchor.proposal.block_header.block_number, seed.undecided@),
        epoch_height,
    ) as u64;
    match current {
        None => Some(e),
        Some(cur) => if cur < e { Some(e) } else { current },
    }
}

/// After taking certificates, the lock is at least as new as each of them.
proof fn lemma_locks_bound(l: Option<Certificate1>, qs: Seq<Certificate1>)
    ensures
        qs.len() > 0 || l is Some ==> locks_through(l, qs) is Some,
        l matches Some(x) ==> locks_through(l, qs).unwrap().view >= x.view,
        forall|i: int| 0 <= i < qs.len() ==> locks_through(l, qs).unwrap().view >= #[trigger] qs[i].view,
    decreases qs.len(),
{
    if qs.len() > 0 {
        lemma_locks_bound(l, qs.drop_last());
        assert forall|i: int| 0 <= i < qs.len() implies locks_through(l, qs).unwrap().view >= #[trigger] qs[i].view by {
            if i < qs.len() - 1 {
                assert(qs.drop_last()[i] == qs[i]);
            }
        }
    }
}

/// A lock at least as new as each certificate is not moved by them.
proof fn lemma_locks_fixed(l: Option<Certificate1>, qs: Seq<Certificate1>)
    requires
        l is Some,
        forall|i: int| 0 <= i < qs.len() ==> l.unwrap().view >= #[trigger] qs[i].view,
    ensures
        locks_through(l, qs) == l,
    decreases qs.len(),
{
    if qs.len() > 0 {
        assert forall|i: int| 0 <= i < qs.drop_last().len() implies l.unwrap().view >= #[trigger] qs.drop_last()[i].view by {
            assert(qs.drop_last()[i] == qs[i]);
        }
        lemma_locks_fixed(l, qs.drop_last());
        assert(l.unwrap().view >= qs[qs.len() - 1].view);
    }
}

/// After filing certificates, each of their views holds one, and so does
/// every view that held one before.
proof fn lemma_files_cover(m: Map<u64, Certificate1>, qs: Seq<Certificate1>)
    ensures
        forall|v: u64| m.contains_key(v) ==> #[trigger] files_through(m, qs).contains_key(v),
        forall|i: int| 0 <= i < qs.len() ==> files_through(m, qs).contains_key(#[trigger] qs[i].view),
    decreases qs.len(),
{
    if qs.len() > 0 {
        lemma_files_cover(m, qs.drop_last());
        assert forall|v: u64| m.contains_key(v) implies #[trigger] files_through(m, qs).contains_key(v) by {
            assert(files_through(m, qs.drop_last()).contains_key(v));
        }
        assert forall|i: int| 0 <= i < qs.len() implies files_through(m, qs).contains_key(#[trigger] qs[i].view) by {
            if i < qs.len() - 1 {
                assert(qs.drop_last()[i] == qs[i]);
            }
        }
    }
}

/// Certificates whose views all hold one already file nothing.
proof fn lemma_files_fixed(m: Map<u64, Certificate1>, qs: Seq<Certificate1>)
    requires
        forall|i: int| 0 <= i < qs.len() ==> m.contains_key(#[trigger] qs[i].view),
    ensures
        files_through(m, qs) == m,
    decreases qs.len(),
{
    if qs.len() > 0 {
        assert forall|i: int| 0 <= i < qs.drop_last().len() implies m.contains_key(#[trigger] qs.drop_last()[i].view) by {
            assert(qs.drop_last()[i] == qs[i]);
        }
        lemma_files_fixed(m, qs.drop_last());
        assert(m.contains_key(qs[qs.len() - 1].view));
    }
}

/// Applying a seed again is harmless: taking its certificates a second
/// time leaves the lock and the first certificates as the first time left
/// them, and its epoch a second time leaves the epoch.
pub proof fn law_seed_twice(l: Option<Certificate1>, m: Map<u64, Certificate1>, epoch: Option<u64>, seed: PreCutoverSeed, epoch_height: u64)
    ensures
        locks_through(locks_through(l, seed_qcs(seed)), seed_qcs(seed)) == locks_through(l, seed_qcs(seed)),
        files_through(files_through(m, seed_qcs(seed)), seed_qcs(seed)) == files_through(m, seed_qcs(seed)),
        seeded_epoch(seeded_epoch(epoch, seed, epoch_height), seed, epoch_height) == seeded_epoch(epoch, seed, epoch_height),
{
    let qs = seed_qcs(seed);
    lemma_locks_bound(l, qs);
    if qs.len() > 0 || l is Some {
        lemma_locks_fixed(locks_through(l, qs), qs);
    } else {
        assert(qs.len() == 0);
    }
    lemma_files_cover(m, qs);
    lemma_files_fixed(files_through(m, qs), qs);
}

pub open spec fn leaf_views(leaves: Seq<Leaf>) -> Set<u64> {
    leaves.map_values(|l: Leaf| l.proposal.view).to_set()
}

impl Consensus {
    /// Bridge the state of the protocol this one replaces: anchor the decided
    /// view, install the undecided leaves so a second certificate can decide
    /// them, take the highest QC, and move the view cursor and the timeout
    /// barrier to the view before the cutover. Decided and locked state never
    /// regress, so applying the same seed twice, or an older one, is harmless.
    pub fn apply_pre_cutover_seed(&mut self, seed: PreCutoverSeed)
        ensures
            old(self).advances(final(self)),
            old(self).wf() ==> final(self).wf(),
            final(self).spec_last_decided_view() == max_spec(
                old(self).spec_last_decided_view(),
                seed.decided_anchor.proposal.view,
            ),
            seed.decided_anchor.proposal.view > old(self).spec_last_decided_view() ==> final(self).spec_last_decided_leaf()
                == seed.decided_anchor.proposal,
            seed.decided_anchor.proposal.view <= old(self).spec_last_decided_view() ==> old(self).keeps_decided_leaf(final(self)),
            final(self).spec_decide_floor_view() == max_spec(
                old(self).spec_decide_floor_view(),
                seed.decided_anchor.proposal.view,
            ),
            final(self).spec_proposals() == seeded(
                old(self).spec_proposals(),
                cutover_proposals(seed.undecided@, old(self).spec_epoch_height()),
            ),
            final(self).spec_pre_cutover() == old(self).spec_pre_cutover().union(leaf_views(seed.undecided@)),
            final(self).spec_voted_1() == old(self).spec_voted_1().union(leaf_views(seed.undecided@)),
            final(self).spec_voted_2() == old(self).spec_voted_2().union(leaf_views(seed.undecided@)),
            final(self).spec_proposed() == old(self).spec_proposed().union(leaf_views(seed.undecided@)),
            seed.cutover_view == 0 ==> final(self).spec_timeout_view() == old(self).spec_timeout_view()
                && final(self).spec_current_view() == old(self).spec_current_view(),
            seed.cutover_view != 0 ==> final(self).spec_timeout_view() == max_spec(
                old(self).spec_timeout_view(),
                (seed.cutover_view - 1) as u64,
            ) && final(self).spec_current_view() == max_spec(
                old(self).spec_current_view(),
                (seed.cutover_view - 1) as u64,
            ) && final(self).spec_current_epoch() is Some,
            match seed.high_qc {
                Some(qc) => opt_le(Some(qc.view), final(self).spec_locked_view()),
                None => true,
            },
            final(self).spec_locked() == locks_through(old(self).spec_locked(), seed_qcs(seed)),
            final(self).spec_certs1() == files_through(old(self).spec_certs1(), seed_qcs(seed)),
            final(self).spec_current_epoch() == if seed.cutover_view == 0 {
                old(self).spec_current_epoch()
            } else {
                seeded_epoch(old(self).spec_current_epoch(), seed, old(self).spec_epoch_height())
            },
    {
        let ghost qcs = seed_qcs(seed);
        let ghost base = seed.undecided@.map_values(|l: Leaf| l.proposal.justify_qc);
        let ghost anchor_block = seed.decided_anchor.proposal.block_header.block_number;
        let PreCutoverSeed { decided_anchor, undecided, high_qc, cutover_view } = seed;
        let view = decided_anchor.proposal.view;
        let mut highest_seeded_block: u64 = decided_anchor.proposal.block_header.block_number;
        if view > self.last_decided_view {
            self.last_decided_view = view;
            self.last_decided_leaf = decided_anchor;
            self.decided_views.insert(view);
        }
        if view > self.decide_floor_view {
            self.decide_floor_view = view;
        }
        proof {
            if old(self).wf() {
                lemma_wf_frame(old(self), self);
            }
        }
        let ghost mid = *self;
        let ghost h = self.epoch_height;
        let mut i: usize = 0;
        while i < undecided.len()
            invariant
                0 <= i <= undecided.len(),
                h == self.epoch_height,
                mid.advances(self),
                mid.wf() ==> self.wf(),
                self.spec_pending_vote1() == mid.spec_pending_vote1(),
                self.spec_pending_vote2() == mid.spec_pending_vote2(),
                self.last_decided_view == mid.last_decided_view,
                self.last_decided_leaf == mid.last_decided_leaf,
                self.decide_floor_view == mid.decide_floor_view,
                self.current_view == mid.current_view,
                self.timeout_view == mid.timeout_view,
                self.current_epoch == mid.current_epoch,
                self.proposals@ == seeded(mid.proposals@, cutover_proposals(undecided@.subrange(0, i as int), h)),
                self.pre_cutover_views@ == mid.pre_cutover_views@.union(leaf_views(undecided@.subrange(0, i as int))),
                self.voted_1_views@ == mid.voted_1_views@.union(leaf_views(undecided@.subrange(0, i as int))),
                self.voted_2_views@ == mid.voted_2_views@.union(leaf_views(undecided@.subrange(0, i as int))),
                self.proposed_views@ == mid.proposed_views@.union(leaf_views(undecided@.subrange(0, i as int))),
                self.spec_locked() == locks_through(mid.spec_locked(), base.subrange(0, i as int)),
                self.spec_certs1() == files_through(mid.spec_certs1(), base.subrange(0, i as int)),
                highest_seeded_block == highest_block(anchor_block, undecided@.subrange(0, i as int)),
                base == undecided@.map_values(|l: Leaf| l.proposal.justify_qc),
                mid.spec_locked() == old(self).spec_locked(),
                mid.spec_certs1() == old(self).spec_certs1(),
            decreases undecided.len() - i,
        {
            let leaf = &undecided[i];
            let lp = leaf.proposal;
            let view = lp.view;
            let justify_qc = lp.justify_qc;
            let ghost before = *self;
            self.register_legacy_qc(&justify_qc);
            let block_number = lp.block_header.block_number;
            let epoch = epoch_from_block_number(block_number, self.epoch_height);
            if block_number > highest_seeded_block {
                highest_seeded_block = block_number;
            }
            let proposal = Proposal {
                epoch,
                next_epoch_justify_qc: None,
                state_cert: None,
                ..lp
            };
            self.leaves.insert(view, leaf.duplicate());
            self.proposals.insert(view, proposal);
            self.pre_cutover_views.insert(view);
            self.proposed_views.insert(view);
            self.voted_1_views.insert(view);
            self.voted_2_views.insert(view);
            proof {
                let prefix = undecided@.subrange(0, i as int);
                let next = undecided@.subrange(0, i as int + 1);
                assert(next == prefix.push(undecided@[i as int]));
                assert(base.subrange(0, i as int + 1) =~= base.subrange(0, i as int).push(justify_qc));
                assert(base.subrange(0, i as int + 1).drop_last() =~= base.subrange(0, i as int));
                assert(next.drop_last() =~= prefix);
                assert(cutover_proposals(next, h) == cutover_proposals(prefix, h).push(proposal));
                assert(cutover_proposals(next, h).drop_last() == cutover_proposals(prefix, h));
                assert(leaf_views(next) =~= leaf_views(prefix).insert(view)) by {
                    assert(next.map_values(|l: Leaf| l.proposal.view) == prefix.map_values(
                        |l: Leaf| l.proposal.view,
                    ).push(view));
                }
                if mid.wf() {
                    assert(before.wf());
                    assert forall|v: u64| #[trigger] self.spec_proposals().contains_key(v) implies self.spec_proposals()[v].view == v by {
                        if v != view {
                            assert(before.spec_proposals().contains_key(v));
                        }
                    }
                    lemma_wf_frame(&before, self);
                }
            }
            i += 1;
        }
        assert(undecided@.subrange(0, undecided.len() as int) == undecided@);
        assert(base.subrange(0, undecided.len() as int) =~= base);
        assert(old(self).wf() ==> mid.wf());
        assert(old(self).wf() ==> self.wf());
        match &high_qc {
            Some(qc) => {
                self.register_legacy_qc(qc);
                proof {
                    assert(qcs.drop_last() =~= base);
                    assert(qcs.last() == *qc);
                }
            },
            None => {
                proof { assert(qcs =~= base); }
            },
        }
        assert(old(self).wf() ==> self.wf());
        if cutover_view == 0 {
            return;
        }
        let ghost pre_views = *self;
        let last_pre_cutover = cutover_view - 1;
        if last_pre_cutover > self.timeout_view {
            self.timeout_view = last_pre_cutover;
        }
        if last_pre_cutover > self.current_view {
            self.current_view = last_pre_cutover;
        }
        let seeded_epoch = epoch_from_block_number(highest_seeded_block, self.epoch_height);
        let newer = match self.current_epoch {
            None => true,
            Some(cur) => cur < seeded_epoch,
        };
        if newer {
            self.current_epoch = Some(seeded_epoch);
        }
        proof {
            if old(self).wf() {
                assert(pre_views.wf());
                lemma_wf_frame(&pre_views, self);
            }
        }
    }
}

impl Consensus {
    /// The proposal stored at `view`, if any.
    pub fn proposal_at(&self, view: u64) -> (r: Option<&Proposal>)
        ensures
            r == (if self.spec_proposals().contains_key(view) {
                Some(&self.spec_proposals()[view])
            } else {
                None
            }),
    {
        self.proposals.get(&view)
    }

    /// The first certificate stored at `view`, if any.
    pub fn cert1_at(&self, view: u64) -> (r: Option<&Certificate1>)
        ensures
            r == (if self.spec_certs1().contains_key(view) {
                Some(&self.spec_certs1()[view])
            } else {
                None
            }),
    {
        self.certs.get(&view)
    }

    /// The second certificate stored at `view`, if any.
    pub fn cert2_at(&self, view: u64) -> (r: Option<&Certificate2>)
        ensures
            r == (if self.spec_certs2().contains_key(view) {
                Some(&self.spec_certs2()[view])
            } else {
                None
            }),
    {
        self.certs2.get(&view)
    }

    /// The timeout certificate that advanced consensus into `view`: it
    /// certifies `view - 1` as timed out.
    pub fn timeout_cert_at(&self, view: u64) -> (r: Option<&TimeoutCertificate>)
        ensures
            r == (if self.spec_timeout_certs().contains_key(view) {
                Some(&self.spec_timeout_certs()[view])
            } else {
                None
            }),
    {
        self.timeout_certs.get(&view)
    }

    /// This node's share of the payload at `view`, if it holds one.
    pub fn vid_share_at(&self, view: u64) -> (r: Option<VidShare>)
        ensures
            r == (if self.spec_vid_shares().contains_key(view) {
                Some(self.spec_vid_shares()[view])
            } else {
                None
            }),
    {
        match self.vid_shares.get(&view) {
            Some(s) => Some(*s),
            None => None,
        }
    }

    /// Whether the block with this payload commitment at `view` was reconstructed.
    pub fn is_reconstructed(&self, view: u64, payload_commitment: u64) -> (r: bool)
        ensures
            r == self.spec_reconstructed().contains((view, payload_commitment)),
    {
        self.blocks_reconstructed.contains(&(view, payload_commitment))
    }

    /// The view of the locked certificate, if one is set.
    pub fn locked_view(&self) -> (r: Option<u64>)
        ensures
            r == self.spec_locked_view(),
    {
        match &self.locked_cert {
            Some(c) => Some(c.view),
            None => None,
        }
    }

    /// The highest certificate held: the locked QC or the latest timeout
    /// certificate, whichever has the higher view; a tie goes to the timeout
    /// certificate.
    pub fn catchup_evidence(&self) -> (r: Option<CatchupEvidence>)
        ensures
            r == self.spec_catchup_evidence(),
    {
        let tc = self.last_timeout_cert();
        match (tc, &self.locked_cert) {
            (Some(tc), Some(qc)) => if qc.view > tc.view {
                Some(CatchupEvidence::Qc(*qc))
            } else {
                Some(CatchupEvidence::Tc(tc))
            },
            (Some(tc), None) => Some(CatchupEvidence::Tc(tc)),
            (None, Some(qc)) => Some(CatchupEvidence::Qc(*qc)),
            (None, None) => None,
        }
    }

    /// The timeout certificate filed under the highest view.
    fn last_timeout_cert(&self) -> (r: Option<TimeoutCertificate>)
        ensures
            r == self.spec_last_timeout_cert(),
    {
        let mut best: Option<(u64, TimeoutCertificate)> = None;
        let ghost all = self.timeout_certs@;
        let ghost keys = vstd::std_specs::btree::spec_keys_iter(&self.timeout_certs).remaining();
        for k in it: self.timeout_certs.keys()
            invariant
                it.seq() == keys,
                all == self.timeout_certs@,
                keys.unref().to_set() == all.dom(),
                match best {
                    None => it.index() == 0,
                    Some((bk, btc)) => all.contains_key(bk) && all[bk] == btc && forall|j: int|
                        0 <= j < it.index() ==> *#[trigger] keys[j] <= bk,
                },
        {
            let tc = *self.timeout_certs.get(k).unwrap();
            assert(k == keys[it.index() as int]);
            best = match best {
                None => Some((*k, tc)),
                Some((bk, btc)) => if *k >= bk {
                    Some((*k, tc))
                } else {
                    Some((bk, btc))
                },
            };
        }
        proof {
            assert(all.dom().finite());
        }
        match best {
            None => {
                proof {
                    assert(keys.len() == 0);
                    assert(keys.unref().to_set() =~= Set::<u64>::empty());
                    assert(all.dom() =~= Set::<u64>::empty());
                }
                None
            },
            Some((bk, btc)) => {
                proof {
                    assert forall|v: u64| #[trigger] all.contains_key(v) implies v <= bk by {
                        assert(keys.unref().to_set().contains(v));
                        assert(keys.unref().contains(v));
                        let j = choose|j: int| 0 <= j < keys.unref().len() && #[trigger] keys.unref()[j] == v;
                        assert(*keys[j] == v);
                    }
                    let m = choose|m: u64| all.contains_key(m) && forall|v: u64| #[trigger] all.contains_key(v) ==> v <= m;
                    assert(m == bk);
                }
                Some(btc)
            },
        }
    }

    /// The newest view that can no longer be decided, below which the inputs
    /// to a decision are dropped.
    pub fn decide_floor(&self) -> (r: u64)
        ensures
            r == self.spec_decide_floor(),
    {
        let slid = self.last_decided_view.saturating_sub(DECIDE_BUFFER);
        if slid >= self.decide_floor_view {
            slid
        } else {
            self.decide_floor_view
        }
    }

    pub fn last_decided_view(&self) -> (r: u64)
        ensures
            r == self.spec_last_decided_view(),
    {
        self.last_decided_view
    }

    pub fn last_decided_leaf(&self) -> (r: &Leaf)
        ensures
            r.proposal == self.spec_last_decided_leaf(),
    {
        &self.last_decided_leaf
    }

    pub fn current_view(&self) -> (r: u64)
        ensures
            r == self.spec_current_view(),
    {
        self.current_view
    }

    pub fn current_epoch(&self) -> (r: Option<u64>)
        ensures
            r == self.spec_current_epoch(),
    {
        self.current_epoch
    }

    pub fn signed_proposal(&self, view: u64) -> (r: Option<&SignedProposal>)
        ensures
            r is Some <==> self.spec_signed().contains_key(view),
            r is Some ==> r.unwrap().data == self.spec_signed()[view],
    {
        self.signed_proposals.get(&view)
    }

    /// The signed proposals held, by view.
    pub closed spec fn spec_signed(&self) -> Map<u64, Proposal> {
        Map::new(
            |v: u64| self.signed_proposals@.contains_key(v),
            |v: u64| self.signed_proposals@[v].data,
        )
    }

    /// Whether `p` is the leaf stored at some view above the decided one.
    pub open spec fn is_undecided_leaf(&self, p: Proposal) -> bool {
        exists|v: u64|
            #[trigger] self.spec_leaves().contains_key(v) && v > self.spec_last_decided_view()
                && self.spec_leaves()[v] == p
    }

    /// The undecided leaves: those stored above the decided view.
    pub fn undecided_leaves(&self) -> (r: Vec<Proposal>)
        ensures
            forall|v: u64|
                #[trigger] self.spec_leaves().contains_key(v) && v > self.spec_last_decided_view()
                    ==> r@.contains(self.spec_leaves()[v]),
            forall|i: int| 0 <= i < r@.len() ==> self.is_undecided_leaf(#[trigger] r@[i]),
    {
        let mut out: Vec<Proposal> = Vec::new();
        let ghost keys = vstd::std_specs::btree::spec_keys_iter(&self.leaves).remaining();
        for k in it: self.leaves.keys()
            invariant
                it.seq() == keys,
                keys.unref().to_set() == self.leaves@.dom(),
                forall|x: int| 0 <= x < out@.len() ==> self.is_undecided_leaf(#[trigger] out@[x]),
                forall|j: int|
                    0 <= j < it.index() && *keys[j] > self.last_decided_view ==> out@.contains(
                        self.leaves@[*#[trigger] keys[j]].proposal,
                    ),
        {
            assert(k == keys[it.index() as int]);
            assert(keys.unref()[it.index() as int] == *k);
            assert(keys.unref().to_set().contains(*k));
            assert(self.leaves@.dom().contains(*k));
            if *k > self.last_decided_view {
                let leaf = self.leaves.get(k).unwrap();
                let ghost before = out@;
                out.push(leaf.proposal);
                assert(self.spec_leaves().contains_key(*k));
                assert(self.spec_leaves()[*k] == leaf.proposal);
                assert forall|x: int| 0 <= x < out@.len() implies self.is_undecided_leaf(#[trigger] out@[x]) by {
                    if x < before.len() {
                        assert(out@[x] == before[x]);
                    } else {
                        assert(out@[x] == self.spec_leaves()[*k]);
                    }
                }
                assert(forall|x: Proposal| before.contains(x) ==> out@.contains(x));
            }
        }
        proof {
            assert forall|v: u64|
                #[trigger] self.spec_leaves().contains_key(v) && v > self.spec_last_decided_view()
                    implies out@.contains(self.spec_leaves()[v]) by {
                assert(keys.unref().to_set().contains(v));
                assert(keys.unref().contains(v));
                let j = choose|j: int| 0 <= j < keys.unref().len() && #[trigger] keys.unref()[j] == v;
                assert(*keys[j] == v);
            }
        }
        out
    }
}

pub open spec fn keep_from<V>(m: Map<u64, V>, bound: u64) -> Map<u64, V> {
    m.restrict(m.dom().filter(|k: u64| k >= bound))
}

pub open spec fn keep_set_from(s: Set<u64>, bound: u64) -> Set<u64> {
    s.filter(|k: u64| k >= bound)
}

impl Consensus {
    /// On restart, bar voting and proposing in every view this node may have
    /// acted in, pin the decide floor at the anchor, and place the view cursor
    /// at the persisted high QC. Forward only: no view moves back.
    pub fn resume_from_restart(&mut self, anchor_view: u64, restart_view: u64, last_actioned_view: u64)
        ensures
            ({
                let anchor_next = if anchor_view == u64::MAX { anchor_view } else { (anchor_view + 1) as u64 };
                let actioned_next = if last_actioned_view == u64::MAX { last_actioned_view } else { (last_actioned_view + 1) as u64 };
                let first_allowed = max_spec(anchor_next, max_spec(restart_view, actioned_next));
                let last_barred = (first_allowed - 1) as u64;
                let resume = match old(self).spec_stored_high_qc() {
                    Some(h) => h,
                    None => anchor_next,
                };
                &&& final(self).spec_timeout_view() == max_spec(old(self).spec_timeout_view(), last_barred)
                &&& final(self).spec_restart_barred_view() == max_spec(old(self).spec_restart_barred_view(), last_barred)
                &&& final(self).spec_decide_floor_view() == max_spec(old(self).spec_decide_floor_view(), anchor_view)
                &&& final(self).spec_current_view() == max_spec(old(self).spec_current_view(), resume)
            }),
            old(self).advances(final(self)),
            old(self).wf() ==> final(self).wf(),
    {
        let anchor_next = anchor_view.saturating_add(1);
        let actioned_next = last_actioned_view.saturating_add(1);
        let inner = if restart_view >= actioned_next { restart_view } else { actioned_next };
        let first_allowed = if anchor_next >= inner { anchor_next } else { inner };
        let last_barred = first_allowed - 1;
        if last_barred > self.timeout_view {
            self.timeout_view = last_barred;
        }
        if last_barred > self.restart_barred_view {
            self.restart_barred_view = last_barred;
        }
        if anchor_view > self.decide_floor_view {
            self.decide_floor_view = anchor_view;
        }
        let resume_view = match self.stored_high_qc {
            Some(h) => h,
            None => anchor_next,
        };
        if resume_view > self.current_view {
            self.current_view = resume_view;
        }
        proof {
            if old(self).wf() {
                lemma_wf_frame(old(self), self);
            }
        }
    }

    /// Whether a proposal for `view` is still wanted: not when the lock is
    /// already past it, nor when its proposal and this node's share are both
    /// held.
    pub fn wants_proposal_for_view(&self, view: u64) -> (r: bool)
        ensures
            r == !(opt_le(Some((view + 1) as u64), self.spec_locked_view()) && view < u64::MAX
                || (self.spec_proposals().contains_key(view) && self.spec_vid_shares().contains_key(view))),
    {
        let locked_too_new = match &self.locked_cert {
            Some(l) => l.view > view,
            None => false,
        };
        let fully_processed = self.proposals.contains_key(&view) && self.vid_shares.contains_key(&view);
        !(locked_too_new || fully_processed)
    }

    /// Drop per-view state.
    ///
    /// After a view change, everything only the current and later views need
    /// is kept. After a decision, the inputs to a decision (proposals and
    /// certificates) are kept down to the decide floor, so a late second
    /// certificate can still decide a gap view, and the rest down to the
    /// decided view. After a timeout, the payload of the timed-out view goes,
    /// unless a certificate for it makes a decision likely.
    pub fn gc(&mut self, scope: GcScope)
        ensures
            final(self).spec_current_view() == old(self).spec_current_view(),
            final(self).spec_locked() == old(self).spec_locked(),
            final(self).spec_last_decided_view() == old(self).spec_last_decided_view(),
            final(self).spec_decide_floor_view() == old(self).spec_decide_floor_view(),
            final(self).spec_timeout_view() == old(self).spec_timeout_view(),
            final(self).spec_stored_high_qc() == old(self).spec_stored_high_qc(),
            match scope {
                GcScope::Local(view) => {
                    &&& final(self).spec_proposed() == keep_set_from(old(self).spec_proposed(), view)
                    &&& final(self).spec_voted_1() == keep_set_from(old(self).spec_voted_1(), view)
                    &&& final(self).spec_voted_2() == keep_set_from(old(self).spec_voted_2(), view)
                    &&& final(self).spec_timeout_certs() == keep_from(old(self).spec_timeout_certs(), view)
                    &&& final(self).spec_proposals() == old(self).spec_proposals()
                    &&& final(self).spec_certs1() == old(self).spec_certs1()
                    &&& final(self).spec_certs2() == old(self).spec_certs2()
                    &&& final(self).spec_decided() == old(self).spec_decided()
                    &&& final(self).spec_pending_vote1() == old(self).spec_pending_vote1()
                    &&& final(self).spec_pending_vote2() == old(self).spec_pending_vote2()
                },
                GcScope::Decided(view) => {
                    let floor = old(self).spec_decide_floor();
                    &&& final(self).spec_certs1() == keep_from(old(self).spec_certs1(), floor)
                    &&& final(self).spec_certs2() == keep_from(old(self).spec_certs2(), floor)
                    &&& final(self).spec_proposals() == keep_from(old(self).spec_proposals(), floor)
                    &&& final(self).spec_decided() == keep_set_from(old(self).spec_decided(), floor)
                    &&& final(self).spec_leaves() == keep_from(old(self).spec_leaves(), view)
                    &&& final(self).spec_vid_shares() == keep_from(old(self).spec_vid_shares(), view)
                    &&& final(self).spec_pending_vote1() == keep_from(old(self).spec_pending_vote1(), view)
                    &&& final(self).spec_pending_vote2() == keep_from(old(self).spec_pending_vote2(), view)
                    &&& final(self).spec_reconstructed() == old(self).spec_reconstructed().filter(
                        |k: (u64, u64)| k.0 >= view,
                    )
                    &&& final(self).spec_voted_1() == old(self).spec_voted_1()
                    &&& final(self).spec_voted_2() == old(self).spec_voted_2()
                    &&& final(self).spec_proposed() == old(self).spec_proposed()
                    &&& (old(self).wf() ==> final(self).wf())
                },
                GcScope::Timeout(view) => {
                    &&& (old(self).spec_certs1().contains_key(view) || old(self).spec_certs2().contains_key(view))
                        ==> final(self).spec_vid_shares() == old(self).spec_vid_shares()
                    &&& !(old(self).spec_certs1().contains_key(view) || old(self).spec_certs2().contains_key(view))
                        ==> final(self).spec_vid_shares() == old(self).spec_vid_shares().remove(view)
                    &&& final(self).spec_proposals() == old(self).spec_proposals()
                    &&& final(self).spec_voted_1() == old(self).spec_voted_1()
                    &&& final(self).spec_voted_2() == old(self).spec_voted_2()
                    &&& final(self).spec_decided() == old(self).spec_decided()
                    &&& (old(self).wf() ==> final(self).wf())
                },
            },
    {
        match scope {
            GcScope::Local(view) => {
                pair_map_retain_from(&mut self.headers, view);
                pair_map_retain_from(&mut self.unpaired_proposals, view);
                pair_map_retain_from(&mut self.unpaired_vid_shares, view);
                let ghost pre = *self;
                set_retain_from(&mut self.proposed_views, view);
                map_retain_from(&mut self.states_verified, view);
                map_retain_from(&mut self.timeout_certs, view);
                set_retain_from(&mut self.voted_1_views, view);
                set_retain_from(&mut self.voted_2_views, view);
                assert(self.spec_proposed() =~= keep_set_from(pre.spec_proposed(), view));
                assert(self.spec_voted_1() =~= keep_set_from(pre.spec_voted_1(), view));
                assert(self.spec_voted_2() =~= keep_set_from(pre.spec_voted_2(), view));
                assert(self.spec_timeout_certs() =~= keep_from(pre.spec_timeout_certs(), view));
            },
            GcScope::Decided(view) => {
                pair_map_retain_from(&mut self.blocks, view);
                pair_set_retain_from(&mut self.blocks_reconstructed, view);
                let keep = self.decide_floor();
                map_retain_from(&mut self.certs, keep);
                map_retain_from(&mut self.certs2, keep);
                set_retain_from(&mut self.decided_views, keep);
                map_retain_from(&mut self.proposals, keep);
                let ghost leaves_before = self.spec_leaves();
                map_retain_from(&mut self.leaves, view);
                assert(self.spec_leaves() =~= keep_from(leaves_before, view));
                map_retain_from(&mut self.signed_proposals, view);
                map_retain_from(&mut self.vid_shares, view);
                map_retain_from(&mut self.stored_proposals, view);
                set_retain_from(&mut self.stored_vids, view);
                set_retain_from(&mut self.stored_vote_actions, view);
                set_retain_from(&mut self.stored_propose_actions, view);
                set_retain_from(&mut self.requested_vote_actions, view);
                set_retain_from(&mut self.requested_propose_actions, view);
                map_retain_from(&mut self.pending_vote1, view);
                map_retain_from(&mut self.pending_vote2, view);
                map_retain_from(&mut self.pending_proposal, view);
                match self.current_epoch {
                    Some(epoch) => {
                        let epoch = epoch.saturating_sub(1);
                        map_retain_from(&mut self.drb_results, epoch);
                        map_retain_from(&mut self.state_certs, epoch);
                    },
                    None => {},
                }
                proof {
                    if old(self).wf() {
                        lemma_wf_shrink(old(self), self);
                    }
                }
            },
            GcScope::Timeout(view) => {
                if self.certs.contains_key(&view) || self.certs2.contains_key(&view) {
                    return;
                }
                self.vid_shares.remove(&view);
                self.remove_blocks_of_view(view);
                proof {
                    if old(self).wf() {
                        lemma_wf_frame(old(self), self);
                    }
                }
            },
        }
    }

    /// Drop every payload held for `view`.
    fn remove_blocks_of_view(&mut self, view: u64)
        ensures
            final(self).blocks@ == old(self).blocks@.restrict(old(self).blocks@.dom().filter(|k: (u64, u64)| k.0 != view)),
            *final(self) == (Consensus { blocks: final(self).blocks, ..*old(self) }),
    {
        let ghost pre = *self;
        let mut drop: Vec<(u64, u64)> = Vec::new();
        let ghost keys = vstd::std_specs::btree::spec_keys_iter(&self.blocks).remaining();
        for k in it: self.blocks.keys()
            invariant
                it.seq() == keys,
                keys.unref().to_set() == self.blocks@.dom(),
                forall|i: int| 0 <= i < drop.len() ==> #[trigger] drop@[i].0 == view && self.blocks@.dom().contains(drop@[i]),
                forall|j: int| 0 <= j < it.index() && #[trigger] keys[j].0 == view ==> drop@.contains(*keys[j]),
        {
            assert(k == keys[it.index() as int]);
            assert(keys.unref()[it.index() as int] == *k);
            assert(keys.unref().to_set().contains(*k));
            let ghost before = drop@;
            if k.0 == view {
                drop.push(*k);
                assert(drop@[drop.len() - 1] == *k);
            }
            assert(forall|x: (u64, u64)| before.contains(x) ==> drop@.contains(x));
        }
        assert(forall|k: (u64, u64)| #[trigger] self.blocks@.dom().contains(k) && k.0 == view ==> drop@.contains(k)) by {
            assert forall|k: (u64, u64)| #[trigger] self.blocks@.dom().contains(k) && k.0 == view implies drop@.contains(k) by {
                let flat = keys.unref();
                assert(flat.to_set().contains(k));
                assert(flat.contains(k));
                let j = choose|j: int| 0 <= j < flat.len() && #[trigger] flat[j] == k;
                assert(*keys[j] == k);
            }
        }
        let ghost orig = self.blocks@;
        let mut i: usize = 0;
        while i < drop.len()
            invariant
                0 <= i <= drop.len(),
                *self == (Consensus { blocks: self.blocks, ..pre }),
                orig == pre.blocks@,
                forall|x: int| 0 <= x < drop.len() ==> #[trigger] drop@[x].0 == view && orig.dom().contains(drop@[x]),
                forall|k: (u64, u64)| #[trigger] orig.dom().contains(k) && k.0 == view ==> drop@.contains(k),
                self.blocks@ == orig.restrict(orig.dom().filter(|k: (u64, u64)| !drop@.subrange(0, i as int).contains(k))),
            decreases drop.len() - i,
        {
            let k = drop[i];
            let ghost before = self.blocks@;
            self.blocks.remove(&k);
            assert(self.blocks@ == before.remove(k));
            assert(drop@.subrange(0, i as int + 1) == drop@.subrange(0, i as int).push(k));
            i += 1;
            assert(self.blocks@ =~= orig.restrict(orig.dom().filter(|k: (u64, u64)| !drop@.subrange(0, i as int).contains(k))));
        }
        assert(drop@.subrange(0, drop.len() as int) == drop@);
        assert(self.blocks@ =~= orig.restrict(orig.dom().filter(|k: (u64, u64)| k.0 != view)));
    }
}

/// Well-formedness survives dropping pending votes.
proof fn lemma_wf_shrink(a: &Consensus, b: &Consensus)
    requires
        a.wf(),
        b.spec_proposals() == a.spec_proposals() || b.spec_proposals().submap_of(a.spec_proposals()) || (forall|v: u64| #[trigger] b.spec_proposals().contains_key(v) ==> b.spec_proposals()[v].view == v),
        b.spec_certs2() == a.spec_certs2() || b.spec_certs2().submap_of(a.spec_certs2()) || (forall|v: u64| #[trigger] b.spec_certs2().contains_key(v) ==> b.spec_certs2()[v].view == v),
        b.spec_certs1() == a.spec_certs1() || b.spec_certs1().submap_of(a.spec_certs1()) || b.certs_keyed(),
        b.spec_pending_vote1().submap_of(a.spec_pending_vote1()),
        b.spec_pending_vote2().submap_of(a.spec_pending_vote2()),
        a.spec_voted_1().subset_of(b.spec_voted_1()),
        a.spec_voted_2().subset_of(b.spec_voted_2()),
        opt_le(a.spec_locked_view(), b.spec_locked_view()),
    ensures
        b.wf(),
{
    assert forall|v: u64| #[trigger] b.spec_certs1().contains_key(v) implies b.spec_certs1()[v].view == v by {
        if b.spec_certs1() == a.spec_certs1() || b.spec_certs1().submap_of(a.spec_certs1()) {
            assert(a.spec_certs1().contains_key(v));
        }
    }
    assert forall|v: u64| #[trigger] b.spec_proposals().contains_key(v) implies b.spec_proposals()[v].view == v by {
        if b.spec_proposals() == a.spec_proposals() || b.spec_proposals().submap_of(a.spec_proposals()) {
            assert(a.spec_proposals().contains_key(v));
        }
    }
    assert forall|v: u64| #[trigger] b.spec_certs2().contains_key(v) implies b.spec_certs2()[v].view == v by {
        if b.spec_certs2() == a.spec_certs2() || b.spec_certs2().submap_of(a.spec_certs2()) {
            assert(a.spec_certs2().contains_key(v));
        }
    }
    assert forall|v: u64| #[trigger] b.spec_pending_vote2().contains_key(v) implies {
        let (vote, required) = b.spec_pending_vote2()[v];
        &&& b.spec_voted_2().contains(v)
        &&& vote.view == v
        &&& required >= v
        &&& opt_le(Some(required), b.spec_locked_view())
    } by {
        assert(a.spec_pending_vote2().contains_key(v));
    }
    assert forall|v: u64| #[trigger] b.spec_pending_vote1().contains_key(v) implies b.spec_voted_1().contains(v)
        && b.spec_pending_vote1()[v].view == v by {
        assert(a.spec_pending_vote1().contains_key(v));
    }
}

/// Whether the rest of a step still runs.
pub enum Protocol {
    Abort,
    Continue,
}

impl Consensus {
    /// Append `o` to the outbox.
    fn emit(&self, outbox: &mut Outbox<ConsensusOutput>, o: ConsensusOutput)
        ensures
            final(outbox)@ == old(outbox)@.push(o),
    {
        outbox.push_back(o);
    }

    /// Whether storage confirmed a proposal with this commitment at `view`.
    fn is_proposal_stored(&self, view: u64, commitment: u64) -> (r: bool)
        ensures
            r == (self.stored_proposals@.contains_key(view) && self.stored_proposals@[view]@.contains(commitment)),
    {
        match self.stored_proposals.get(&view) {
            None => false,
            Some(commitments) => {
                assert(*commitments == self.stored_proposals@[view]);
                let mut i: usize = 0;
                while i < commitments.len()
                    invariant
                        0 <= i <= commitments.len(),
                        forall|j: int| 0 <= j < i ==> commitments@[j] != commitment,
                        *commitments == self.stored_proposals@[view],
                        self.stored_proposals@.contains_key(view),
                    decreases commitments.len() - i,
                {
                    if commitments[i] == commitment {
                        assert(commitments@[i as int] == commitment);
                        return true;
                    }
                    i += 1;
                }
                false
            },
        }
    }

    /// Ask for `kind` in `view` to be recorded, once.
    fn request_action(&mut self, view: u64, epoch: Option<u64>, kind: ActionKind, outbox: &mut Outbox<ConsensusOutput>)
        ensures
            Self::step(old(self), final(self), old(outbox)@, final(outbox)@),
            *final(self) == (Consensus {
                requested_vote_actions: final(self).requested_vote_actions,
                requested_propose_actions: final(self).requested_propose_actions,
                ..*old(self)
            }),
            ({
                let requested = match kind {
                    ActionKind::Vote => old(self).requested_vote_actions@,
                    ActionKind::Propose => old(self).requested_propose_actions@,
                };
                &&& kind is Vote ==> final(self).requested_vote_actions@ == old(self).requested_vote_actions@.insert(view)
                    && final(self).requested_propose_actions == old(self).requested_propose_actions
                &&& kind is Propose ==> final(self).requested_propose_actions@ == old(self).requested_propose_actions@.insert(view)
                    && final(self).requested_vote_actions == old(self).requested_vote_actions
                &&& final(outbox)@ == if requested.contains(view) {
                    old(outbox)@
                } else {
                    old(outbox)@.push(ConsensusOutput::RecordAction(view, epoch, kind))
                }
            }),
    {
        let fresh = match kind {
            ActionKind::Vote => self.requested_vote_actions.insert(view),
            ActionKind::Propose => self.requested_propose_actions.insert(view),
        };
        proof {
            if old(self).wf() {
                lemma_wf_frame(old(self), self);
            }
        }
        proof { lemma_step_frame(old(self), self, outbox@); }
        if fresh {
            let ghost o0 = outbox@;
            self.emit(outbox, ConsensusOutput::RecordAction(view, epoch, kind));
            proof { lemma_push(old(self), self, old(outbox)@, o0, ConsensusOutput::RecordAction(view, epoch, kind)); }
        }
    }

    /// Whether the view's vote action and share are persisted, which gates
    /// the second vote. A view barred on restart persisted both before.
    fn vote2_persisted(&self, view: u64) -> (r: bool)
        ensures
            r == (view <= self.restart_barred_view || (self.stored_vote_actions@.contains(view)
                && self.stored_vids@.contains(view))),
    {
        view <= self.restart_barred_view || (self.stored_vote_actions.contains(&view)
            && self.stored_vids.contains(&view))
    }

    /// Send the pending first vote of `view` once its vote action and
    /// proposal are persisted; drop it if the view timed out meanwhile.
    fn release_vote1(&mut self, view: u64, outbox: &mut Outbox<ConsensusOutput>)
        ensures
            Self::step(old(self), final(self), old(outbox)@, final(outbox)@),
            ({
                let pending = old(self).spec_pending_vote1();
                let ready = pending.contains_key(view) && old(self).vote1_persisted(view, pending[view].leaf_commit);
                &&& !ready ==> *final(self) == *old(self) && final(outbox)@ == old(outbox)@
                &&& ready ==> {
                    &&& *final(self) == (Consensus { pending_vote1: final(self).pending_vote1, ..*old(self) })
                    &&& final(self).spec_pending_vote1() == pending.remove(view)
                    &&& final(outbox)@ == if view <= old(self).spec_timeout_view() {
                        old(outbox)@
                    } else if old(self).spec_vid_shares().contains_key(view) {
                        old(outbox)@.push(ConsensusOutput::SendVote1(pending[view])).push(
                            ConsensusOutput::BroadcastVidShare(old(self).spec_vid_shares()[view]),
                        )
                    } else {
                        old(outbox)@.push(ConsensusOutput::SendVote1(pending[view]))
                    }
                }
            }),
    {
        let ready = match self.pending_vote1.get(&view) {
            None => false,
            Some(vote1) => self.stored_vote_actions.contains(&view) && self.is_proposal_stored(
                view,
                vote1.leaf_commit,
            ),
        };
        if !ready {
            proof { lemma_step_refl(self, outbox@); }
            return;
        }
        let vote1 = self.pending_vote1.remove(&view).unwrap();
        proof {
            if old(self).wf() {
                lemma_wf_shrink(old(self), self);
            }
            lemma_step_frame(old(self), self, outbox@);
        }
        if view <= self.timeout_view {
            return;
        }
        let vid_share = self.vid_share_at(view);
        let ghost o1 = outbox@;
        let out = ConsensusOutput::SendVote1(vote1);
        self.emit(outbox, out);
        proof { lemma_push(old(self), self, old(outbox)@, o1, out); }
        match vid_share {
            Some(share) => {
                let ghost o2 = outbox@;
                self.emit(outbox, ConsensusOutput::BroadcastVidShare(share));
                proof { lemma_push(old(self), self, old(outbox)@, o2, ConsensusOutput::BroadcastVidShare(share)); }
            },
            None => {},
        }
    }
}

/// A change of state that emits nothing is a run.
proof fn lemma_step_frame(a: &Consensus, b: &Consensus, out: Seq<ConsensusOutput>)
    requires
        a.advances(b),
        a.wf() ==> b.wf(),
    ensures
        Consensus::step(a, b, out, out),
{
    assert(out.subrange(0, out.len() as int) =~= out);
}

/// A vote emitted from a state in which its view is not settled repeats
/// no vote of the run so far.
proof fn lemma_no_repeat(a: &Consensus, p: &Consensus, before: Seq<ConsensusOutput>, mid: Seq<ConsensusOutput>, o: ConsensusOutput)
    requires
        Consensus::step(a, p, before, mid),
        !settled(p, o),
    ensures
        a.wf() ==> forall|i: int| before.len() <= i < mid.len() ==> !repeats(#[trigger] mid[i], o),
{
    if a.wf() {
        assert forall|i: int| before.len() <= i < mid.len() implies !repeats(#[trigger] mid[i], o) by {
            assert(Consensus::output_ok(a, p, mid[i]));
        }
    }
}

/// A run extended by one more output it owes what it should.
proof fn lemma_push(a: &Consensus, b: &Consensus, before: Seq<ConsensusOutput>, mid: Seq<ConsensusOutput>, o: ConsensusOutput)
    requires
        Consensus::step(a, b, before, mid),
        a.wf() ==> Consensus::output_ok(a, b, o),
        a.wf() ==> forall|i: int| before.len() <= i < mid.len() ==> !repeats(#[trigger] mid[i], o),
    ensures
        Consensus::step(a, b, before, mid.push(o)),
{
    let after = mid.push(o);
    assert(after.subrange(0, before.len() as int) =~= before) by {
        assert forall|i: int| 0 <= i < before.len() implies after.subrange(0, before.len() as int)[i] == before[i] by {
            assert(mid.subrange(0, before.len() as int)[i] == mid[i]);
        }
    }
    if a.wf() {
        assert forall|i: int, j: int| before.len() <= i < j < after.len() implies !repeats(#[trigger] after[i], #[trigger] after[j]) by {
            assert(after[i] == mid[i]);
            if j < mid.len() {
                assert(after[j] == mid[j]);
            }
        }
        assert forall|i: int| before.len() <= i < after.len() implies Consensus::output_ok(a, b, #[trigger] after[i]) by {
            if i < mid.len() {
                assert(after[i] == mid[i]);
            }
        }
    }
}

impl Consensus {
    /// Send the pending second vote of `view` once its vote action, its share
    /// and the lock it rests on are persisted; drop it if a second
    /// certificate for the view made it moot.
    fn release_vote2(&mut self, view: u64, outbox: &mut Outbox<ConsensusOutput>)
        ensures
            Self::step(old(self), final(self), old(outbox)@, final(outbox)@),
            ({
                let pending = old(self).spec_pending_vote2();
                let moot = pending.contains_key(view) && old(self).spec_certs2().contains_key(view);
                let ready = pending.contains_key(view) && !old(self).spec_certs2().contains_key(view)
                    && old(self).spec_vote2_persisted(view) && opt_le(Some(pending[view].1), old(self).spec_stored_high_qc());
                &&& !moot && !ready ==> *final(self) == *old(self) && final(outbox)@ == old(outbox)@
                &&& moot || ready ==> *final(self) == (Consensus { pending_vote2: final(self).pending_vote2, ..*old(self) })
                    && final(self).spec_pending_vote2() == pending.remove(view)
                &&& moot ==> final(outbox)@ == old(outbox)@
                &&& ready ==> final(outbox)@ == old(outbox)@.push(ConsensusOutput::SendVote2(pending[view].0))
            }),
    {
        let required = match self.pending_vote2.get(&view) {
            None => {
                proof { lemma_step_refl(self, outbox@); }
                return;
            },
            Some(entry) => entry.1,
        };
        if self.certs2.contains_key(&view) {
            self.pending_vote2.remove(&view);
            proof {
                if old(self).wf() {
                    lemma_wf_shrink(old(self), self);
                }
                lemma_step_frame(old(self), self, outbox@);
            }
            return;
        }
        if !self.vote2_persisted(view) || !self.high_qc_persisted(required) {
            proof { lemma_step_refl(self, outbox@); }
            return;
        }
        let (vote2, _) = self.pending_vote2.remove(&view).unwrap();
        proof {
            if old(self).wf() {
                lemma_wf_shrink(old(self), self);
            }
            lemma_step_frame(old(self), self, outbox@);
        }
        let ghost o1 = outbox@;
        self.emit(outbox, ConsensusOutput::SendVote2(vote2));
        proof { lemma_push(old(self), self, old(outbox)@, o1, ConsensusOutput::SendVote2(vote2)); }
    }

    /// Send the pending proposal of `view` once its propose action and the
    /// proposal itself are persisted.
    fn release_proposal(&mut self, view: u64, outbox: &mut Outbox<ConsensusOutput>)
        ensures
            Self::step(old(self), final(self), old(outbox)@, final(outbox)@),
            ({
                let pending = old(self).pending_proposal@;
                let ready = pending.contains_key(view) && old(self).stored_propose_actions@.contains(view)
                    && old(self).stored_proposals@.contains_key(view)
                    && old(self).stored_proposals@[view]@.contains(pending[view].data.leaf_commit);
                &&& !ready ==> *final(self) == *old(self) && final(outbox)@ == old(outbox)@
                &&& ready ==> {
                    &&& *final(self) == (Consensus { pending_proposal: final(self).pending_proposal, ..*old(self) })
                    &&& final(self).pending_proposal@ == pending.remove(view)
                    &&& final(outbox)@ == old(outbox)@.push(ConsensusOutput::SendProposal(pending[view]))
                }
            }),
    {
        let ready = match self.pending_proposal.get(&view) {
            None => false,
            Some(message) => self.stored_propose_actions.contains(&view) && self.is_proposal_stored(
                view,
                message.data.leaf_commit,
            ),
        };
        if !ready {
            proof { lemma_step_refl(self, outbox@); }
            return;
        }
        let message = self.pending_proposal.remove(&view).unwrap();
        proof {
            if old(self).wf() {
                lemma_wf_frame(old(self), self);
            }
            lemma_step_frame(old(self), self, outbox@);
        }
        let ghost o1 = outbox@;
        let out = ConsensusOutput::SendProposal(message);
        proof { assert(Self::output_ok(old(self), self, out)); }
        self.emit(outbox, out);
        proof { lemma_push(old(self), self, old(outbox)@, o1, out); }
    }

    /// What a confirmation from storage records: a persisted proposal
    /// commitment is appended under its view, a share, a vote or propose
    /// action is marked persisted, and the persisted locked-QC view only
    /// rises; no other of these records moves.
    pub closed spec fn stored_recorded(start: &Self, end: &Self, stored: StorageOutput) -> bool {
        match stored {
            StorageOutput::Proposal(v, c) => {
                &&& end.stored_proposals@.dom() == start.stored_proposals@.dom().insert(v)
                &&& end.stored_proposals@[v]@ == (if start.stored_proposals@.contains_key(v) {
                    start.stored_proposals@[v]@
                } else {
                    Seq::empty()
                }).push(c)
                &&& forall|k: u64| k != v && #[trigger] start.stored_proposals@.contains_key(k)
                    ==> end.stored_proposals@[k] == start.stored_proposals@[k]
                &&& end.stored_vids == start.stored_vids
                &&& end.stored_vote_actions == start.stored_vote_actions
                &&& end.stored_propose_actions == start.stored_propose_actions
                &&& end.stored_high_qc == start.stored_high_qc
            },
            StorageOutput::Vid(v) => {
                &&& end.stored_vids@ == start.stored_vids@.insert(v)
                &&& end.stored_proposals == start.stored_proposals
                &&& end.stored_vote_actions == start.stored_vote_actions
                &&& end.stored_propose_actions == start.stored_propose_actions
                &&& end.stored_high_qc == start.stored_high_qc
            },
            StorageOutput::Action(v, kind) => {
                &&& kind is Vote ==> end.stored_vote_actions@ == start.stored_vote_actions@.insert(v)
                    && end.stored_propose_actions == start.stored_propose_actions
                &&& kind is Propose ==> end.stored_propose_actions@ == start.stored_propose_actions@.insert(v)
                    && end.stored_vote_actions == start.stored_vote_actions
                &&& end.stored_proposals == start.stored_proposals
                &&& end.stored_vids == start.stored_vids
                &&& end.stored_high_qc == start.stored_high_qc
            },
            StorageOutput::HighQc(v) => {
                &&& end.stored_high_qc == (match start.stored_high_qc {
                    Some(cur) => if cur < v {
                        Some(v)
                    } else {
                        Some(cur)
                    },
                    None => Some(v),
                })
                &&& end.stored_proposals == start.stored_proposals
                &&& end.stored_vids == start.stored_vids
                &&& end.stored_vote_actions == start.stored_vote_actions
                &&& end.stored_propose_actions == start.stored_propose_actions
            },
        }
    }

    /// Record what storage confirmed, and release whatever it unblocks.
    fn handle_stored(&mut self, stored: StorageOutput, outbox: &mut Outbox<ConsensusOutput>)
        ensures
            Self::step(old(self), final(self), old(outbox)@, final(outbox)@),
            *final(self) == (Consensus {
                stored_proposals: final(self).stored_proposals,
                stored_vids: final(self).stored_vids,
                stored_vote_actions: final(self).stored_vote_actions,
                stored_propose_actions: final(self).stored_propose_actions,
                stored_high_qc: final(self).stored_high_qc,
                pending_vote1: final(self).pending_vote1,
                pending_vote2: final(self).pending_vote2,
                pending_proposal: final(self).pending_proposal,
                ..*old(self)
            }),
            Self::stored_recorded(old(self), final(self), stored),
            old(self).same_except_stored(final(self)),
            stored matches StorageOutput::HighQc(_) ==> final(self).pending_vote1 == old(self).pending_vote1
                && final(self).pending_proposal == old(self).pending_proposal,
            final(self).spec_pending_vote1().dom().subset_of(old(self).spec_pending_vote1().dom()),
            final(self).spec_pending_vote2().dom().subset_of(old(self).spec_pending_vote2().dom()),
            final(self).pending_proposal@.dom().subset_of(old(self).pending_proposal@.dom()),
            forall|i: int| old(outbox)@.len() <= i < final(outbox)@.len() ==> released(#[trigger] final(outbox)@[i]),
    {
        let view = stored.view_number();
        match stored {
            StorageOutput::Proposal(v, commitment) => {
                let mut list = match self.stored_proposals.remove(&v) {
                    Some(l) => l,
                    None => Vec::new(),
                };
                list.push(commitment);
                self.stored_proposals.insert(v, list);
                proof { assert(self.stored_proposals@.dom() =~= old(self).stored_proposals@.dom().insert(v)); }
            },
            StorageOutput::Vid(v) => {
                self.stored_vids.insert(v);
            },
            StorageOutput::Action(v, kind) => {
                match kind {
                    ActionKind::Vote => {
                        self.stored_vote_actions.insert(v);
                    },
                    ActionKind::Propose => {
                        self.stored_propose_actions.insert(v);
                    },
                }
            },
            StorageOutput::HighQc(v) => {
                self.bump_stored_high_qc(v);
                proof {
                    if old(self).wf() {
                        lemma_wf_frame(old(self), self);
                    }
                    lemma_step_frame(old(self), self, outbox@);
                }
                // A newly persisted lock can unblock second votes in many views.
                let pending = self.pending_vote2_views();
                let ghost bumped = *self;
                let mut i: usize = 0;
                while i < pending.len()
                    invariant
                        0 <= i <= pending.len(),
                        Self::step(old(self), self, old(outbox)@, outbox@),
                        *self == (Consensus { pending_vote2: self.pending_vote2, ..bumped }),
                        bumped == (Consensus { stored_high_qc: bumped.stored_high_qc, ..*old(self) }),
                        self.spec_pending_vote2().dom().subset_of(old(self).spec_pending_vote2().dom()),
                        old(outbox)@.len() <= outbox@.len(),
                        forall|j: int| old(outbox)@.len() <= j < outbox@.len() ==> released(#[trigger] outbox@[j]),
                    decreases pending.len() - i,
                {
                    let ghost mid = *self;
                    let ghost omid = outbox@;
                    self.release_vote2(pending[i], outbox);
                    proof { lemma_step_trans(old(self), &mid, self, old(outbox)@, omid, outbox@); }
                    i += 1;
                }
                return;
            },
        }
        proof {
            if old(self).wf() {
                lemma_wf_frame(old(self), self);
            }
            lemma_step_frame(old(self), self, outbox@);
        }
        let ghost m1 = *self;
        let ghost o1 = outbox@;
        self.release_vote1(view, outbox);
        proof { lemma_step_trans(old(self), &m1, self, old(outbox)@, o1, outbox@); }
        let ghost m2 = *self;
        let ghost o2 = outbox@;
        self.release_vote2(view, outbox);
        proof { lemma_step_trans(old(self), &m2, self, old(outbox)@, o2, outbox@); }
        let ghost m3 = *self;
        let ghost o3 = outbox@;
        self.release_proposal(view, outbox);
        proof { lemma_step_trans(old(self), &m3, self, old(outbox)@, o3, outbox@); }
    }

    /// The views with a pending second vote.
    fn pending_vote2_views(&self) -> (r: Vec<u64>)
        ensures
            forall|a: int, b: int| 0 <= a < b < r@.len() ==> r@[a] < r@[b],
            forall|v: u64| r@.contains(v) <==> self.spec_pending_vote2().contains_key(v),
    {
        crate::collections::sorted_keys(&self.pending_vote2)
    }
}

/// Whether `o` is what a release of something held back sends: a vote, a
/// share, or a proposal.
pub open spec fn released(o: ConsensusOutput) -> bool {
    o is SendVote1 || o is BroadcastVidShare || o is SendVote2 || o is SendProposal
}

/// The first vote `c` casts in `view`, if every condition for it holds: the
/// view is past the timeout barrier and not voted in; its state is validated,
/// its proposal and this node's share of it are in; a proposal in an epoch's
/// transition carries the DRB result of the next epoch that this node holds;
/// this node is staked in the proposal's epoch; unless the parent is genesis
/// or the proposal starts an epoch, the parent's proposal is in, is the one
/// the justify QC certifies, and its block is reconstructed (or is the
/// locked one) unless it predates the cutover; and the validated state is of
/// this proposal.
pub open spec fn vote1_due(c: &Consensus, membership: &Membership, view: u64) -> Option<Vote1> {
    let h = c.spec_epoch_height();
    if view <= c.spec_timeout_view() || c.spec_voted_1().contains(view) || !c.spec_states_verified().contains_key(view)
        || !c.spec_proposals().contains_key(view) || !c.spec_vid_shares().contains_key(view) {
        None
    } else {
        let p = c.spec_proposals()[view];
        let b = p.block_header.block_number;
        let e = p.epoch;
        let next_epoch = if e < u64::MAX { (e + 1) as u64 } else { e };
        let drb_ok = !(e > 0 && spec_is_epoch_transition(b, h)) || (c.spec_drb_results().contains_key(next_epoch)
            && p.next_drb_result == Some(c.spec_drb_results()[next_epoch]));
        let pv = p.justify_qc.view;
        let parent_ok = pv == 0 || spec_is_last_block(if b >= 1 { (b - 1) as u64 } else { 0 }, h) || (
        c.spec_proposals().contains_key(pv) && {
            let prev = c.spec_proposals()[pv];
            &&& (c.spec_pre_cutover().contains(pv) || (prev.block_header.payload_commitment matches VidCommitment::V2(pc)
                && (c.spec_reconstructed().contains((pv, pc)) || (c.spec_locked() matches Some(lock) && lock.view == pv
                && lock.leaf_commit == prev.leaf_commit))))
            &&& p.justify_qc.leaf_commit == prev.leaf_commit
        });
        if drb_ok && membership.spec_has_stake(e, c.spec_public_key()) && parent_ok && c.spec_states_verified()[view]
            == p.leaf_commit {
            Some(
                Vote1 {
                    view,
                    leaf_commit: p.leaf_commit,
                    epoch: Some(e),
                    block_number: Some(b),
                    with_state_vote: spec_is_epoch_root(b, h),
                },
            )
        } else {
            None
        }
    }
}

impl Consensus {
    /// Whether storage confirmed the vote action of `view` and its proposal
    /// with this commitment, so its first vote may go out.
    pub open spec fn vote1_persisted(&self, view: u64, commitment: u64) -> bool {
        self.spec_stored_vote_actions().contains(view) && self.spec_stored_proposals().contains_key(view)
            && self.spec_stored_proposals()[view].contains(commitment)
    }

    /// The views whose vote action storage confirmed.
    pub closed spec fn spec_stored_vote_actions(&self) -> Set<u64> {
        self.stored_vote_actions@
    }

    /// The views whose propose action storage confirmed.
    pub closed spec fn spec_stored_proposes(&self) -> Set<u64> {
        self.stored_propose_actions@
    }

    /// The views whose share storage confirmed.
    pub closed spec fn spec_stored_vids(&self) -> Set<u64> {
        self.stored_vids@
    }

    /// Per view, the proposal commitments storage confirmed.
    pub closed spec fn spec_stored_proposals(&self) -> Map<u64, Seq<u64>> {
        Map::new(|v: u64| self.stored_proposals@.contains_key(v), |v: u64| self.stored_proposals@[v]@)
    }
}

/// The first certificate of `view` that `c` takes as its lock and votes on,
/// with the proposal it certifies, if the view predates no cutover, is not
/// voted in yet, and its certificate certifies its proposal, whose block is
/// reconstructed.
pub open spec fn vote2_cert(c: &Consensus, view: u64) -> Option<(Certificate1, Proposal)> {
    if c.spec_pre_cutover().contains(view) || c.spec_voted_2().contains(view) || !c.spec_certs1().contains_key(view)
        || !c.spec_proposals().contains_key(view) {
        None
    } else {
        let cert1 = c.spec_certs1()[view];
        let p = c.spec_proposals()[view];
        if cert1.leaf_commit == p.leaf_commit && (p.block_header.payload_commitment matches VidCommitment::V2(pc)
            && c.spec_reconstructed().contains((view, pc))) {
            Some((cert1, p))
        } else {
            None
        }
    }
}

/// Whether `cert1` is newer than the lock of `c`.
pub open spec fn newer_than_lock(c: &Consensus, cert1: Certificate1) -> bool {
    match c.spec_locked() {
        None => true,
        Some(l) => l.view < cert1.view,
    }
}

/// The view after `view`, saturating.
pub open spec fn next_view(view: u64) -> u64 {
    if view < u64::MAX { (view + 1) as u64 } else { view }
}

/// Taking `cert1`, of `view`'s proposal `p`, as the lock: if it is newer
/// the lock becomes `cert1`, the view moves on to the one after `view`
/// unless it is past it, and the epoch becomes the proposal's; otherwise
/// nothing changes. Nothing else changes either way.
pub proof fn lemma_locked_on(c: &Consensus, view: u64, cert1: Certificate1, p: Proposal)
    ensures
        ({
            let m = c.locked_on(view, cert1, p);
            &&& c.same_except_lock_view_epoch(&m)
            &&& newer_than_lock(c, cert1) ==> {
                &&& m.spec_locked() == Some(cert1)
                &&& m.spec_current_view() == max_spec(c.spec_current_view(), next_view(view))
                &&& m.spec_current_epoch() == Some(p.epoch)
            }
            &&& !newer_than_lock(c, cert1) ==> m == *c
        }),
{
}

/// What taking `cert1`, of `view`'s proposal `p`, as the lock announces: the
/// next view, the certificate, and its persistence; nothing unless it is
/// newer.
pub open spec fn lock_outputs(c: &Consensus, view: u64, cert1: Certificate1, p: Proposal) -> Seq<ConsensusOutput> {
    if newer_than_lock(c, cert1) {
        seq![
            ConsensusOutput::ViewChanged(next_view(view), p.epoch),
            ConsensusOutput::SendCertificate1(cert1),
            ConsensusOutput::PersistHighQc(cert1),
        ]
    } else {
        Seq::empty()
    }
}

/// Whether the second vote of `view`, whose proposal is `p`, is cast from
/// `c`: the view is not certified, decided or below the decide floor, and
/// this node is staked in the proposal's epoch.
pub open spec fn vote2_cast(c: &Consensus, membership: &Membership, view: u64, p: Proposal) -> bool {
    !c.spec_certs2().contains_key(view) && !c.spec_decided().contains(view) && view > c.spec_decide_floor()
        && membership.spec_has_stake(p.epoch, c.spec_public_key())
}

impl Consensus {
    /// `self` once `cert1`, of `view`'s proposal `p`, is taken as the lock if
    /// it is newer: the view moves on to the one after it, the epoch to the
    /// proposal's.
    pub closed spec fn locked_on(&self, view: u64, cert1: Certificate1, p: Proposal) -> Consensus {
        if newer_than_lock(self, cert1) {
            Consensus {
                locked_cert: Some(cert1),
                current_view: if next_view(view) > self.current_view { next_view(view) } else { self.current_view },
                current_epoch: Some(p.epoch),
                ..*self
            }
        } else {
            *self
        }
    }

    /// Whether the vote action of `view` and its share are persisted, or the
    /// view was barred on restart.
    pub open spec fn spec_vote2_persisted(&self, view: u64) -> bool {
        view <= self.spec_restart_barred() || (self.spec_stored_vote_actions().contains(view)
            && self.spec_stored_vids().contains(view))
    }

    /// Whether the vote actions requested of storage include that of `view`.
    pub open spec fn vote_action_requested(&self, view: u64) -> bool {
        self.spec_requested_votes().contains(view)
    }

    pub open spec fn spec_restart_barred(&self) -> u64 {
        self.spec_restart_barred_view()
    }

    /// `next` differs from `self` at most in its lock, view and epoch.
    pub closed spec fn same_except_lock_view_epoch(&self, next: &Self) -> bool {
        *next == Consensus {
            locked_cert: next.locked_cert,
            current_view: next.current_view,
            current_epoch: next.current_epoch,
            ..*self
        }
    }
}

/// The certificates and proposal of `view` that `c` decides on: both
/// certificates are in, the second certifies the proposal, and the view is
/// above the decide floor and not decided yet.
pub open spec fn decide_due(c: &Consensus, view: u64) -> Option<(Certificate1, Certificate2, Proposal)> {
    if view <= c.spec_decide_floor() || c.spec_decided().contains(view) || !c.spec_certs2().contains_key(view)
        || !c.spec_proposals().contains_key(view) || !c.spec_certs1().contains_key(view) {
        None
    } else if c.spec_certs2()[view].leaf_commit != c.spec_proposals()[view].leaf_commit {
        None
    } else {
        Some((c.spec_certs1()[view], c.spec_certs2()[view], c.spec_proposals()[view]))
    }
}

/// The undecided ancestors of `p` that `c` holds, newest first, found by
/// following justify QCs down from below `last`: each is above `floor`, not
/// decided, the proposal its child's justify QC certifies, and earlier than
/// its child; the walk stops at the first that is not.
pub open spec fn ancestors(c: &Consensus, floor: u64, p: Proposal, last: u64) -> Seq<Proposal>
    decreases last,
{
    let pv = p.justify_qc.view;
    if pv > floor && !c.spec_decided().contains(pv) && c.spec_proposals().contains_key(pv)
        && c.spec_proposals()[pv].leaf_commit == p.justify_qc.leaf_commit && pv < last {
        seq![c.spec_proposals()[pv]] + ancestors(c, floor, c.spec_proposals()[pv], pv)
    } else {
        Seq::empty()
    }
}

/// The views of the proposals `chain`.
pub open spec fn chain_views(chain: Seq<Proposal>) -> Set<u64> {
    Set::new(|v: u64| exists|j: int| 0 <= j < chain.len() && #[trigger] chain[j].view == v)
}

/// The proposals of the leaves `leaves`.
pub open spec fn leaf_proposals(leaves: Seq<Leaf>) -> Seq<Proposal> {
    leaves.map_values(|l: Leaf| l.proposal)
}

/// `a + 1`, saturating.
pub open spec fn sat_inc(a: u64) -> u64 {
    if a < u64::MAX { (a + 1) as u64 } else { a }
}

/// `a - 1`, or zero.
pub open spec fn sat_dec(a: u64) -> u64 {
    if a >= 1 { (a - 1) as u64 } else { 0 }
}

/// What `c` does towards proposing in `view`: the output it emits, if any,
/// and whether it counts the view as proposed in. It proposes once the view
/// is past the timeout barrier and not proposed in, and it holds the parent
/// certificate (the lock after a timeout certificate of the view, the QC of
/// the view before otherwise) with its proposal, which the certificate
/// certifies unless it is genesis; a header built on that parent, and the
/// block of its payload; the leadership of the view in the epoch of the new
/// proposal (the next one for the first proposal of an epoch); the DRB of
/// the next epoch for a transition proposal; the parent's second certificate
/// for the first proposal of an epoch; and, for an epoch-root parent, the
/// state certificate of the parent's epoch, which must be the one the parent
/// certificate calls for. Without the header after a timeout certificate, a
/// leader asks for one on the current parent; without the DRB, it asks for it.
pub open spec fn propose_due(c: &Consensus, membership: &Membership, view: u64) -> (Option<ConsensusOutput>, bool) {
    let h = c.spec_epoch_height();
    let tc = if c.spec_timeout_certs().contains_key(view) { Some(c.spec_timeout_certs()[view]) } else { None };
    let parent_cert = match tc {
        Some(_) => c.spec_locked(),
        None => if c.spec_certs1().contains_key(sat_dec(view)) { Some(c.spec_certs1()[sat_dec(view)]) } else { None },
    };
    if view <= c.spec_timeout_view() || c.spec_proposed().contains(view) || parent_cert is None {
        (None, false)
    } else {
        let pc = parent_cert.unwrap();
        let pv = pc.view;
        if !c.spec_proposals().contains_key(pv) || (pv != 0 && c.spec_proposals()[pv].leaf_commit != pc.leaf_commit) {
            (None, false)
        } else {
            let parent = c.spec_proposals()[pv];
            let parent_commitment = if pv == 0 { parent.leaf_commit } else { pc.leaf_commit };
            if !c.spec_headers().contains_key((view, parent_commitment)) {
                let request_epoch = if spec_is_last_block(parent.block_header.block_number, h) {
                    sat_inc(parent.epoch)
                } else {
                    parent.epoch
                };
                if tc is Some && membership.spec_is_leader(view, request_epoch, c.spec_public_key()) {
                    (
                        Some(
                            ConsensusOutput::RequestBlockAndHeader(
                                BlockAndHeaderRequest { view, epoch: request_epoch, parent_proposal: parent },
                            ),
                        ),
                        false,
                    )
                } else {
                    (None, false)
                }
            } else {
                let header = c.spec_headers()[(view, parent_commitment)];
                let first = spec_is_last_block(sat_dec(header.block_number), h);
                let epoch = if first { sat_inc(parent.epoch) } else { parent.epoch };
                let needs_drb = parent.epoch > 0 && spec_is_epoch_transition(header.block_number, h);
                let pbn = match pc.block_number {
                    Some(b) => b,
                    None => 0,
                };
                let root = spec_is_epoch_root(pbn, h);
                if !(header.payload_commitment matches VidCommitment::V2(bc) && c.spec_blocks().contains_key((view, bc)))
                    || !membership.spec_is_leader(view, epoch, c.spec_public_key()) {
                    (None, false)
                } else if needs_drb && !c.spec_drb_results().contains_key(sat_inc(parent.epoch)) {
                    (Some(ConsensusOutput::RequestDrbResult(sat_inc(parent.epoch))), false)
                } else if first && !c.spec_certs2().contains_key(pv) {
                    (None, false)
                } else if root && (pc.epoch is None || !c.spec_state_certs().contains_key(pc.epoch.unwrap())
                    || !spec_state_cert_corresponds(pc, c.spec_state_certs()[pc.epoch.unwrap()], h)) {
                    (None, false)
                } else {
                    (
                        Some(
                            ConsensusOutput::SignProposal(
                                Proposal {
                                    block_header: header,
                                    view,
                                    epoch,
                                    justify_qc: pc,
                                    next_epoch_justify_qc: if first { Some(c.spec_certs2()[pv]) } else { None },
                                    view_change_evidence: tc,
                                    next_drb_result: if needs_drb { Some(c.spec_drb_results()[sat_inc(parent.epoch)]) } else { None },
                                    state_cert: if root { Some(c.spec_state_certs()[pc.epoch.unwrap()]) } else { None },
                                    leaf_commit: 0,
                                },
                            ),
                        ),
                        true,
                    )
                }
            }
        }
    }
}

impl Consensus {
    /// The first vote of `view` as [`Consensus::maybe_vote_1`] takes it:
    /// from `start` to `end`, and the outbox from `before` to `after`.
    pub open spec fn vote1_ran(start: &Self, end: &Self, before: Seq<ConsensusOutput>, after: Seq<ConsensusOutput>, membership: &Membership, view: u64) -> bool {
        &&& vote1_due(start, membership, view) is None ==> *end == *start && after == before
        &&& vote1_due(start, membership, view) matches Some(vote) ==> {
            &&& end.spec_voted_1() == start.spec_voted_1().insert(view)
            &&& start.vote1_persisted(view, vote.leaf_commit) ==> {
                &&& start.same_except_voted_1(end)
                &&& after == before.push(ConsensusOutput::SendVote1(vote)).push(
                    ConsensusOutput::BroadcastVidShare(start.spec_vid_shares()[view]),
                )
            }
            &&& !start.vote1_persisted(view, vote.leaf_commit) ==> {
                &&& start.same_except_vote1_held(end)
                &&& end.spec_pending_vote1() == start.spec_pending_vote1().insert(view, vote)
                &&& end.spec_requested_votes() == start.spec_requested_votes().insert(view)
                &&& after == if start.spec_requested_votes().contains(view) {
                    before
                } else {
                    before.push(ConsensusOutput::RecordAction(view, vote.epoch, ActionKind::Vote))
                }
            }
        }
    }

    /// Cast the first vote for the proposal at `view` once its state is
    /// validated, its share is held, the DRB it carries checks out, this node
    /// has stake in its epoch, and its parent's block is reconstructed and
    /// certified by its justify QC. The vote goes out at once if its vote
    /// action and the proposal are persisted; otherwise it waits for them.
    fn maybe_vote_1(&mut self, view: u64, membership: &Membership, outbox: &mut Outbox<ConsensusOutput>)
        ensures
            Self::step(old(self), final(self), old(outbox)@, final(outbox)@),
            Self::vote1_ran(old(self), final(self), old(outbox)@, final(outbox)@, membership, view),
    {
        proof { lemma_step_refl(self, outbox@); }
        if view <= self.timeout_view || self.voted_1_views.contains(&view) {
            return;
        }
        let state_commitment = match self.states_verified.get(&view) {
            None => return,
            Some(c) => *c,
        };
        let proposal = match self.proposals.get(&view) {
            None => return,
            Some(p) => *p,
        };
        let vid_share = match self.vid_shares.get(&view) {
            None => return,
            Some(s) => *s,
        };
        let block_number = proposal.block_header.block_number;
        let epoch = proposal.epoch;
        // A transition proposal is voted on only once its DRB checks out.
        if epoch > 0 && is_epoch_transition(block_number, self.epoch_height) {
            match self.drb_results.get(&epoch.saturating_add(1)) {
                None => return,
                Some(drb) => {
                    if !same_opt(proposal.next_drb_result, Some(*drb)) {
                        return;
                    }
                },
            }
        }
        if !self.staked_in_epoch(membership, epoch) {
            return;
        }
        let parent_view = proposal.justify_qc.view;
        // Blocks from before the cutover were dispersed otherwise and cannot
        // be reconstructed here.
        let parent_is_pre_cutover = self.pre_cutover_views.contains(&parent_view);
        if parent_view != 0 && !is_last_block(block_number.saturating_sub(1), self.epoch_height) {
            let prev = match self.proposals.get(&parent_view) {
                None => return,
                Some(p) => *p,
            };
            if !parent_is_pre_cutover {
                let prev_block_commitment = match prev.block_header.payload_commitment {
                    VidCommitment::V2(c) => c,
                    VidCommitment::V1(_) => return,
                };
                if !self.parent_reconstructed(parent_view, prev_block_commitment, prev.leaf_commit) {
                    return;
                }
            }
            if proposal.justify_qc.leaf_commit != prev.leaf_commit {
                return;
            }
        }
        let proposal_commit = proposal.leaf_commit;
        if state_commitment != proposal_commit {
            return;
        }
        let vote = Vote1 {
            view,
            leaf_commit: proposal_commit,
            epoch: Some(epoch),
            block_number: Some(block_number),
            with_state_vote: is_epoch_root(block_number, self.epoch_height),
        };
        assert(vote1_due(old(self), membership, view) == Some(vote));
        let can_send = self.stored_vote_actions.contains(&view) && self.is_proposal_stored(
            view,
            proposal_commit,
        );
        assert(can_send == old(self).vote1_persisted(view, vote.leaf_commit));
        self.voted_1_views.insert(view);
        proof {
            if old(self).wf() {
                lemma_wf_frame(old(self), self);
            }
            lemma_step_frame(old(self), self, outbox@);
        }
        if can_send {
            let ghost o1 = outbox@;
            self.emit(outbox, ConsensusOutput::SendVote1(vote));
            proof { lemma_push(old(self), self, old(outbox)@, o1, ConsensusOutput::SendVote1(vote)); }
            let ghost o2 = outbox@;
            self.emit(outbox, ConsensusOutput::BroadcastVidShare(vid_share));
            proof { lemma_push(old(self), self, old(outbox)@, o2, ConsensusOutput::BroadcastVidShare(vid_share)); }
        } else {
            let ghost m1 = *self;
            self.pending_vote1.insert(view, vote);
            proof {
                assert(!old(self).spec_voted_1().contains(view));
                if old(self).wf() {
                    assert(m1.wf());
                    assert(self.wf()) by {
                        assert forall|v: u64| #[trigger] self.spec_pending_vote1().contains_key(v) implies self.spec_voted_1().contains(v)
                            && self.spec_pending_vote1()[v].view == v by {
                            if v != view {
                                assert(m1.spec_pending_vote1().contains_key(v));
                            }
                        }
                        assert(self.spec_pending_vote2() == m1.spec_pending_vote2());
                        assert(self.spec_certs1() == m1.spec_certs1());
                        assert(self.spec_proposals() == m1.spec_proposals());
                        assert(self.spec_certs2() == m1.spec_certs2());
                    }
                }
                assert(old(self).advances(self));
                lemma_step_frame(old(self), self, old(outbox)@);
                lemma_step_trans(old(self), old(self), self, old(outbox)@, old(outbox)@, old(outbox)@);
            }
            let ghost m2 = *self;
            let ghost o2 = outbox@;
            self.request_action(view, Some(epoch), ActionKind::Vote, outbox);
            proof { lemma_step_trans(old(self), &m2, self, old(outbox)@, o2, outbox@); }
        }
    }

    /// The lock update and second vote of `view` as
    /// [`Consensus::maybe_vote_2_and_update_lock`] takes them: from `start` to
    /// `end`, and the outbox from `before` to `after`.
    pub open spec fn vote2_ran(start: &Self, end: &Self, before: Seq<ConsensusOutput>, after: Seq<ConsensusOutput>, membership: &Membership, view: u64) -> bool {
        &&& end.spec_certs1() == start.spec_certs1()
        &&& vote2_cert(start, view) is None ==> *end == *start && after == before
        &&& vote2_cert(start, view) matches Some((cert1, p)) ==> {
            let m = start.locked_on(view, cert1, p);
            let o = before + lock_outputs(start, view, cert1, p);
            let vote = Vote2 { view, leaf_commit: p.leaf_commit, epoch: p.epoch, block_number: p.block_header.block_number };
            let required = m.spec_locked().unwrap().view;
            let persisted = m.spec_vote2_persisted(view) && opt_le(Some(required), m.spec_stored_high_qc());
            let ask = view > m.spec_restart_barred() && !m.vote_action_requested(view);
            &&& !vote2_cast(&m, membership, view, p) ==> *end == m && after == o
            &&& vote2_cast(&m, membership, view, p) && persisted ==> {
                &&& m.same_except_voted_2(end)
                &&& end.spec_voted_2() == m.spec_voted_2().insert(view)
                &&& after == o.push(ConsensusOutput::SendVote2(vote))
            }
            &&& vote2_cast(&m, membership, view, p) && !persisted ==> {
                &&& m.same_except_vote2_held(end)
                &&& end.spec_voted_2() == m.spec_voted_2().insert(view)
                &&& end.spec_pending_vote2() == m.spec_pending_vote2().insert(view, (vote, required))
                &&& view > m.spec_restart_barred() ==> end.spec_requested_votes() == m.spec_requested_votes().insert(view)
                &&& view <= m.spec_restart_barred() ==> end.spec_requested_votes() == m.spec_requested_votes()
                &&& after == if ask {
                    o.push(ConsensusOutput::RecordAction(view, Some(p.epoch), ActionKind::Vote))
                } else {
                    o
                }
            }
        }
    }

    /// Once the first certificate of `view` matches its proposal and the
    /// block is reconstructed: take the certificate as the lock if it is
    /// newer (announcing the next view, relaying the certificate and asking
    /// for the lock to be persisted), and cast the second vote unless the view
    /// is already certified, decided or below the decide floor. The vote goes
    /// out only once its vote action, its share and the lock are persisted.
    fn maybe_vote_2_and_update_lock(&mut self, view: u64, membership: &Membership, outbox: &mut Outbox<ConsensusOutput>)
        ensures
            Self::step(old(self), final(self), old(outbox)@, final(outbox)@),
            Self::vote2_ran(old(self), final(self), old(outbox)@, final(outbox)@, membership, view),
    {
        proof { lemma_step_refl(self, outbox@); }
        if self.pre_cutover_views.contains(&view) || self.voted_2_views.contains(&view) {
            return;
        }
        let cert1 = match self.certs.get(&view) {
            None => return,
            Some(c) => *c,
        };
        let proposal = match self.proposals.get(&view) {
            None => return,
            Some(p) => *p,
        };
        let proposal_epoch = proposal.epoch;
        let proposal_commit = proposal.leaf_commit;
        if cert1.leaf_commit != proposal_commit {
            return;
        }
        let proposal_block_commitment = match proposal.block_header.payload_commitment {
            VidCommitment::V2(c) => c,
            VidCommitment::V1(_) => return,
        };
        if !self.blocks_reconstructed.contains(&(view, proposal_block_commitment)) {
            return;
        }
        let newer = match &self.locked_cert {
            None => true,
            Some(locked) => locked.view < cert1.view,
        };
        if newer {
            let next_view = view.saturating_add(1);
            self.locked_cert = Some(cert1);
            if next_view > self.current_view {
                self.current_view = next_view;
            }
            self.current_epoch = Some(proposal_epoch);
            proof {
                if old(self).wf() {
                    lemma_wf_frame(old(self), self);
                }
                lemma_step_frame(old(self), self, outbox@);
            }
            let ghost o1 = outbox@;
            self.emit(outbox, ConsensusOutput::ViewChanged(next_view, proposal_epoch));
            proof { lemma_push(old(self), self, old(outbox)@, o1, ConsensusOutput::ViewChanged(next_view, proposal_epoch)); }
            let ghost o2 = outbox@;
            self.emit(outbox, ConsensusOutput::SendCertificate1(cert1));
            proof { lemma_push(old(self), self, old(outbox)@, o2, ConsensusOutput::SendCertificate1(cert1)); }
            let ghost o3 = outbox@;
            self.emit(outbox, ConsensusOutput::PersistHighQc(cert1));
            proof { lemma_push(old(self), self, old(outbox)@, o3, ConsensusOutput::PersistHighQc(cert1)); }
        }
        proof { assert(outbox@ =~= old(outbox)@ + lock_outputs(old(self), view, cert1, proposal)); }
        if self.certs2.contains_key(&view) || self.decided_views.contains(&view) || view <= self.decide_floor() {
            return;
        }
        if !self.staked_in_epoch(membership, proposal_epoch) {
            return;
        }
        let vote = Vote2 {
            view,
            leaf_commit: proposal_commit,
            epoch: proposal_epoch,
            block_number: proposal.block_header.block_number,
        };
        let ghost m1 = *self;
        let ghost o1 = outbox@;
        self.voted_2_views.insert(view);
        let required = match &self.locked_cert {
            Some(l) => l.view,
            None => view,
        };
        proof {
            if old(self).wf() {
                assert(m1.wf());
                assert(cert1.view == view);
                assert(self.locked_cert is Some);
                assert(required >= view);
                lemma_wf_frame(&m1, self);
            }
            assert(m1.advances(self));
            assert(old(self).advances(self));
            lemma_step_frame(old(self), self, old(outbox)@);
            assert(Self::step(old(self), self, old(outbox)@, o1));
        }
        if self.vote2_persisted(view) && self.high_qc_persisted(required) {
            let ghost o2 = outbox@;
            proof {
                if old(self).wf() {
                    assert(!old(self).spec_pending_vote2().contains_key(view));
                    assert(Self::output_ok(old(self), self, ConsensusOutput::SendVote2(vote)));
                }
            }
            self.emit(outbox, ConsensusOutput::SendVote2(vote));
            proof { lemma_push(old(self), self, old(outbox)@, o2, ConsensusOutput::SendVote2(vote)); }
        } else {
            let ghost m3 = *self;
            let ghost o3 = outbox@;
            self.pending_vote2.insert(view, (vote, required));
            proof {
                assert(!old(self).spec_voted_2().contains(view));
                if old(self).wf() {
                    assert(m3.wf());
                    assert(self.wf()) by {
                        assert forall|v: u64| #[trigger] self.spec_pending_vote2().contains_key(v) implies {
                            let (vt, req) = self.spec_pending_vote2()[v];
                            &&& self.spec_voted_2().contains(v)
                            &&& vt.view == v
                            &&& req >= v
                            &&& opt_le(Some(req), self.spec_locked_view())
                        } by {
                            if v != view {
                                assert(m3.spec_pending_vote2().contains_key(v));
                            }
                        }
                        assert(self.spec_pending_vote1() == m3.spec_pending_vote1());
                        assert(self.spec_certs1() == m3.spec_certs1());
                        assert(self.spec_proposals() == m3.spec_proposals());
                        assert(self.spec_certs2() == m3.spec_certs2());
                    }
                }
                assert(old(self).advances(self));
                assert(Self::step(old(self), &m3, old(outbox)@, o3));
                assert(Self::step(old(self), self, old(outbox)@, o3)) by {
                    if old(self).wf() {
                        assert forall|i: int| old(outbox)@.len() <= i < o3.len() implies Self::output_ok(old(self), self, #[trigger] o3[i]) by {
                            lemma_output_ok_no_vote2(old(self), &m3, self, o3[i], view);
                        }
                    }
                }
            }
            if view > self.restart_barred_view {
                let ghost m4 = *self;
                let ghost o4 = outbox@;
                self.request_action(view, Some(proposal_epoch), ActionKind::Vote, outbox);
                proof { lemma_step_trans(old(self), &m4, self, old(outbox)@, o4, outbox@); }
            }
        }
    }
}

/// Filing a second vote as pending keeps what earlier outputs are owed, as
/// long as none of them is a second vote for that view.
proof fn lemma_output_ok_no_vote2(a: &Consensus, b: &Consensus, c: &Consensus, o: ConsensusOutput, view: u64)
    requires
        Consensus::output_ok(a, b, o),
        !(o matches ConsensusOutput::SendVote2(v) && v.view == view),
        c.spec_pending_vote2() == b.spec_pending_vote2().insert(view, c.spec_pending_vote2()[view]),
        c.spec_voted_1() == b.spec_voted_1(),
        c.spec_voted_2() == b.spec_voted_2(),
        c.spec_pending_vote1() == b.spec_pending_vote1(),
        c.spec_decided() == b.spec_decided(),
        c.spec_stored_high_qc() == b.spec_stored_high_qc(),
        c.spec_locked() == b.spec_locked(),
        c.spec_current_view() == b.spec_current_view(),
    ensures
        Consensus::output_ok(a, c, o),
{
}

impl Consensus {
    /// The leaf of the proposal at `view`, with its payload if it is held.
    fn leaf_at(&self, view: u64, proposal: &Proposal) -> (r: Leaf)
        ensures
            r.proposal == *proposal,
    {
        let payload = match proposal.block_header.payload_commitment {
            VidCommitment::V2(pc) => match self.blocks.get(&(view, pc)) {
                Some(p) => Some(p.duplicate()),
                None => None,
            },
            VidCommitment::V1(_) => None,
        };
        Leaf { proposal: *proposal, payload }
    }

    /// The decision of `view` as [`Consensus::maybe_decide`] takes it: from
    /// `start` to `end`, and the outbox from `before` to `after`.
    pub open spec fn decide_ran(start: &Self, end: &Self, before: Seq<ConsensusOutput>, after: Seq<ConsensusOutput>, view: u64) -> bool {
        &&& decide_due(start, view) is None ==> *end == *start && after == before
        &&& decide_due(start, view) matches Some((cert1, cert2, p)) ==> {
            let chain = seq![p] + ancestors(start, start.spec_decide_floor(), p, view);
            let change = if spec_is_last_block(p.block_header.block_number, start.spec_epoch_height())
                && cert1.leaf_commit == p.leaf_commit {
                seq![ConsensusOutput::SendEpochChange(EpochChangeMessage { cert1, cert2, proposal: p })]
            } else {
                Seq::empty()
            };
            &&& start.same_except_decisions(end)
            &&& end.spec_decided() == start.spec_decided().union(chain_views(chain))
            &&& end.spec_last_decided_view() == max_spec(start.spec_last_decided_view(), view)
            &&& view > start.spec_last_decided_view() ==> end.spec_last_decided_leaf() == p
            &&& view <= start.spec_last_decided_view() ==> start.keeps_decided_leaf(end)
            &&& after.len() == before.len() + change.len() + 1
            &&& after.take(before.len() + change.len() as int) == before + change
            &&& after.last() matches ConsensusOutput::LeafDecided { leaves, cert1: c1, cert2: c2, vid_shares }
                && leaf_proposals(leaves@) == chain && c1 == cert1 && c2 == Some(cert2)
                && vid_shares.len() == chain.len()
                && forall|i: int| 0 <= i < chain.len() ==> #[trigger] vid_shares@[i] == (if start.spec_vid_shares().contains_key(chain[i].view) {
                    Some(start.spec_vid_shares()[chain[i].view])
                } else {
                    None
                })
        }
    }

    /// Decide the proposal at `view` once a second certificate for it and its
    /// first certificate are held, together with every undecided ancestor
    /// reachable through justify QCs whose proposals are held. A view at or
    /// below the decide floor, or already decided, is left alone. At the last
    /// block of an epoch, the certificates and the proposal also go out as an
    /// epoch-change message.
    #[verifier::spinoff_prover]
    fn maybe_decide(&mut self, view: u64, outbox: &mut Outbox<ConsensusOutput>)
        ensures
            Self::step(old(self), final(self), old(outbox)@, final(outbox)@),
            Self::decide_ran(old(self), final(self), old(outbox)@, final(outbox)@, view),
    {
        proof { lemma_step_refl(self, outbox@); }
        let floor = self.decide_floor();
        if view <= floor || self.decided_views.contains(&view) {
            return;
        }
        let cert2 = match self.certs2.get(&view) {
            None => return,
            Some(c) => *c,
        };
        let proposal = match self.proposals.get(&view) {
            None => return,
            Some(p) => *p,
        };
        let proposal_commit = proposal.leaf_commit;
        if cert2.leaf_commit != proposal_commit {
            return;
        }
        // A second certificate can arrive before the first; both are needed.
        let cert1 = match self.certs.get(&view) {
            None => return,
            Some(c) => *c,
        };
        assert(old(self).spec_certs2().contains_key(view) && old(self).spec_certs2()[view] == cert2);
        assert(old(self).spec_certs1().contains_key(view) && old(self).spec_certs1()[view] == cert1);
        assert(old(self).spec_proposals().contains_key(view) && old(self).spec_proposals()[view] == proposal);
        if is_last_block(proposal.block_header.block_number, self.epoch_height) && cert1.leaf_commit
            == proposal_commit {
            let ghost o1 = outbox@;
            let m = EpochChangeMessage { cert1, cert2, proposal };
            self.emit(outbox, ConsensusOutput::SendEpochChange(m));
            proof { lemma_push(old(self), self, old(outbox)@, o1, ConsensusOutput::SendEpochChange(m)); }
        }
        let mut decided: Vec<Leaf> = Vec::new();
        decided.push(self.leaf_at(view, &proposal));
        let mut vid_shares: Vec<Option<VidShare>> = Vec::new();
        vid_shares.push(self.vid_share_at(proposal.view));
        let mut last_view = view;
        let mut parent_view = proposal.justify_qc.view;
        let mut parent_commit = proposal.justify_qc.leaf_commit;
        // A missing ancestor is a gap, which a later certificate fills in.
        loop
            invariant_except_break
                decided.len() >= 1,
            invariant
                decided.len() >= 1,
                floor == old(self).spec_decide_floor(),
                *self == *old(self),
                decided@[0].proposal == proposal,
                seq![proposal] + ancestors(old(self), floor, proposal, view) == leaf_proposals(decided@) + ancestors(
                    old(self),
                    floor,
                    decided@[decided.len() - 1].proposal,
                    last_view,
                ),
                vid_shares.len() == decided.len(),
                forall|i: int| 0 <= i < decided.len() ==> #[trigger] vid_shares@[i] == (if old(self).spec_vid_shares().contains_key(decided@[i].proposal.view) {
                    Some(old(self).spec_vid_shares()[decided@[i].proposal.view])
                } else {
                    None
                }),
                old(self).wf() ==> last_view == decided@[decided.len() - 1].proposal.view,
                parent_view == decided@[decided.len() - 1].proposal.justify_qc.view,
                parent_commit == decided@[decided.len() - 1].proposal.justify_qc.leaf_commit,
                old(self).wf() ==> proposal.view == view,
                old(self).wf() ==> forall|i: int|
                    0 <= i < decided.len() ==> {
                        &&& #[trigger] decided@[i].proposal.view > floor
                        &&& !old(self).spec_decided().contains(decided@[i].proposal.view)
                    },
                old(self).wf() ==> forall|i: int|
                    0 <= i < decided.len() - 1 ==> {
                        &&& #[trigger] decided@[i + 1].proposal.view == decided@[i].proposal.justify_qc.view
                        &&& decided@[i + 1].proposal.leaf_commit == decided@[i].proposal.justify_qc.leaf_commit
                        &&& decided@[i + 1].proposal.view < decided@[i].proposal.view
                    },
            ensures
                ancestors(old(self), floor, decided@[decided.len() - 1].proposal, last_view) == Seq::<Proposal>::empty(),
            decreases last_view,
        {
            if !(parent_view > floor && !self.decided_views.contains(&parent_view)) {
                break;
            }
            let parent = match self.proposals.get(&parent_view) {
                None => break,
                Some(p) => *p,
            };
            // Ancestors descend; a chain that does not has no leaf to add.
            if parent.leaf_commit != parent_commit || parent_view >= last_view {
                break;
            }
            proof {
                if old(self).wf() {
                    assert(parent.view == parent_view);
                }
            }
            vid_shares.push(self.vid_share_at(parent.view));
            let ghost before = decided@;
            decided.push(self.leaf_at(parent_view, &parent));
            proof {
                assert(decided@[decided.len() - 1].proposal == parent);
                assert forall|i: int| 0 <= i < before.len() implies #[trigger] decided@[i] == before[i] by {}
                if old(self).wf() {
                    assert(parent.view == parent_view);
                }
            }
            last_view = parent_view;
            parent_view = parent.justify_qc.view;
            parent_commit = parent.justify_qc.leaf_commit;
        }
        let ghost chain = decided@;
        proof {
            assert(leaf_proposals(decided@) + Seq::<Proposal>::empty() =~= leaf_proposals(decided@));
        }
        let mut i: usize = 0;
        while i < decided.len()
            invariant
                0 <= i <= decided.len(),
                decided@ == chain,
                old(self).advances(self),
                old(self).wf() ==> self.wf(),
                self.spec_decided() == old(self).spec_decided().union(
                    Set::new(|v: u64| exists|j: int| 0 <= j < i && #[trigger] chain[j].proposal.view == v),
                ),
                *self == (Consensus { decided_views: self.decided_views, ..*old(self) }),
            decreases decided.len() - i,
        {
            let ghost before = *self;
            self.decided_views.insert(decided[i].proposal.view);
            proof {
                assert(self.spec_decided() =~= old(self).spec_decided().union(
                    Set::new(|v: u64| exists|j: int| 0 <= j < i + 1 && #[trigger] chain[j].proposal.view == v),
                )) by {
                    assert forall|v: u64| Set::new(|v: u64| exists|j: int| 0 <= j < i + 1 && #[trigger] chain[j].proposal.view == v).contains(v)
                        implies self.spec_decided().contains(v) by {
                        let j = choose|j: int| 0 <= j < i + 1 && #[trigger] chain[j].proposal.view == v;
                        if j < i {
                            assert(Set::new(|v: u64| exists|j: int| 0 <= j < i && #[trigger] chain[j].proposal.view == v).contains(v));
                        }
                    }
                    assert forall|v: u64| self.spec_decided().contains(v) implies old(self).spec_decided().union(
                        Set::new(|v: u64| exists|j: int| 0 <= j < i + 1 && #[trigger] chain[j].proposal.view == v),
                    ).contains(v) by {
                        if v != chain[i as int].proposal.view && !old(self).spec_decided().contains(v) {
                            assert(before.spec_decided().contains(v));
                            let j = choose|j: int| 0 <= j < i && #[trigger] chain[j].proposal.view == v;
                            assert(0 <= j < i + 1 && chain[j].proposal.view == v);
                        }
                    }
                }
                if old(self).wf() {
                    lemma_wf_frame(&before, self);
                }
            }
            i += 1;
        }
        proof {
            let props = leaf_proposals(chain);
            assert(Set::new(|v: u64| exists|j: int| 0 <= j < chain.len() && #[trigger] chain[j].proposal.view == v)
                =~= chain_views(props)) by {
                assert forall|v: u64| chain_views(props).contains(v) implies exists|j: int| 0 <= j < chain.len()
                    && #[trigger] chain[j].proposal.view == v by {
                    let j = choose|j: int| 0 <= j < props.len() && #[trigger] props[j].view == v;
                    assert(chain[j].proposal.view == v);
                }
                assert forall|v: u64| (exists|j: int| 0 <= j < chain.len() && #[trigger] chain[j].proposal.view == v)
                    implies chain_views(props).contains(v) by {
                    let j = choose|j: int| 0 <= j < chain.len() && #[trigger] chain[j].proposal.view == v;
                    assert(props[j].view == v);
                }
            }
        }
        // A gap filled below the decided view must not move it back.
        if view > self.last_decided_view {
            self.last_decided_view = view;
            self.last_decided_leaf = decided[0].duplicate();
        }
        proof {
            assert(old(self).advances(self));
            if old(self).wf() {
                lemma_wf_frame(old(self), self);
            }
            lemma_step_frame(old(self), self, outbox@);
            let mid = outbox@;
            assert(Self::step(old(self), self, old(outbox)@, mid));
            assert forall|k: int| 0 <= k < chain.len() implies self.spec_decided().contains(#[trigger] chain[k].proposal.view) by {
                assert(Set::new(|v: u64| exists|j: int| 0 <= j < chain.len() && #[trigger] chain[j].proposal.view == v).contains(chain[k].proposal.view));
            }
        }
        let ghost o2 = outbox@;
        let out = ConsensusOutput::LeafDecided { leaves: decided, cert1, cert2: Some(cert2), vid_shares };
        proof {
            if old(self).wf() {
                assert(cert2.view == view);
                assert(cert1.view == view);
                assert(decision_ok(old(self), self, chain, cert1, Some(cert2)));
            }
        }
        self.emit(outbox, out);
        proof {
            lemma_push(old(self), self, old(outbox)@, o2, out);
            let ch = seq![proposal] + ancestors(old(self), old(self).spec_decide_floor(), proposal, view);
            let change = if spec_is_last_block(proposal.block_header.block_number, old(self).spec_epoch_height())
                && cert1.leaf_commit == proposal.leaf_commit {
                seq![ConsensusOutput::SendEpochChange(EpochChangeMessage { cert1, cert2, proposal })]
            } else {
                Seq::empty()
            };
            assert(outbox@.take(old(outbox)@.len() + change.len() as int) =~= old(outbox)@ + change);
            assert(self.spec_decided() =~= old(self).spec_decided().union(chain_views(ch)));
        }
    }
}

/// The safety and liveness rule: with no lock anything goes; at the locked
/// view only the locked leaf; elsewhere the justify QC must either certify
/// the same data as the lock (safety) or be newer than it (liveness).
pub open spec fn spec_is_safe(locked: Option<Certificate1>, p: Proposal) -> bool {
    match locked {
        None => true,
        Some(l) => if l.view == p.view {
            l.leaf_commit == p.leaf_commit
        } else {
            (p.justify_qc.leaf_commit == l.leaf_commit && p.justify_qc.epoch == l.epoch
                && p.justify_qc.block_number == l.block_number) || p.justify_qc.view > l.view
        },
    }
}

impl Consensus {
    /// Check `proposal` against the safety and liveness rule.
    pub fn is_safe(&self, proposal: &Proposal) -> (r: Result<(), SafetyError>)
        ensures
            r is Ok <==> spec_is_safe(self.spec_locked(), *proposal),
            r matches Err(SafetyError::LockedViewCommitmentMismatch { .. }) ==> self.spec_locked() is Some
                && self.spec_locked().unwrap().view == proposal.view,
            r matches Err(SafetyError::UnsafeProposal { .. }) ==> self.spec_locked() is Some
                && self.spec_locked().unwrap().view != proposal.view,
    {
        let locked = match &self.locked_cert {
            None => return Ok(()),
            Some(l) => *l,
        };
        // The first certificate and the block arrived before the proposal.
        if locked.view == proposal.view {
            if locked.leaf_commit != proposal.leaf_commit {
                return Err(
                    SafetyError::LockedViewCommitmentMismatch {
                        locked_commit: locked.leaf_commit,
                        proposal_commit: proposal.leaf_commit,
                    },
                );
            }
            return Ok(());
        }
        let qc = proposal.justify_qc;
        let safety = qc.leaf_commit == locked.leaf_commit && same_opt(qc.epoch, locked.epoch)
            && same_opt(qc.block_number, locked.block_number);
        let liveness = qc.view > locked.view;
        if safety || liveness {
            return Ok(());
        }
        Err(
            SafetyError::UnsafeProposal {
                locked_view: locked.view,
                parent_commit: qc.leaf_commit,
                locked_commit: locked.leaf_commit,
            },
        )
    }

    /// Whether this node holds stake in `epoch`; an epoch whose committee is
    /// unknown counts as one it holds none in.
    fn staked_in_epoch(&self, membership: &Membership, epoch: u64) -> (r: bool)
        ensures
            r == membership.spec_has_stake(epoch, self.spec_public_key()),
    {
        membership.has_stake(epoch, self.public_key)
    }

    /// Whether this node leads `view` in `epoch`.
    fn is_leader(&self, membership: &Membership, view: u64, epoch: u64) -> (r: bool)
        ensures
            r == membership.spec_is_leader(view, epoch, self.spec_public_key()),
    {
        membership.is_leader(view, epoch, self.public_key)
    }

    /// The proposal for `view` as [`Consensus::maybe_propose`] takes it: from
    /// `start` to `end`, and the outbox from `before` to `after`.
    pub open spec fn propose_ran(start: &Self, end: &Self, before: Seq<ConsensusOutput>, after: Seq<ConsensusOutput>, membership: &Membership, view: u64) -> bool {
        let (out, proposed) = propose_due(start, membership, view);
        &&& proposed ==> start.same_except_proposed(end) && end.spec_proposed() == start.spec_proposed().insert(view)
        &&& !proposed ==> *end == *start
        &&& after == match out {
            Some(o) => before.push(o),
            None => before,
        }
    }

    /// Build the proposal for `view` once this node leads it and holds
    /// everything it needs: the parent certificate (the lock after a timeout
    /// certificate, the previous view's QC otherwise) and its proposal, a
    /// header and block built on that parent, the DRB a transition proposal
    /// carries, the boundary certificate the first proposal of an epoch
    /// carries, and the state certificate an epoch-root parent calls for. The
    /// proposal goes out to be signed; its leaf commitment is filled in where
    /// the leaf is hashed.
    fn maybe_propose(&mut self, view: u64, membership: &Membership, outbox: &mut Outbox<ConsensusOutput>)
        ensures
            Self::step(old(self), final(self), old(outbox)@, final(outbox)@),
            Self::propose_ran(old(self), final(self), old(outbox)@, final(outbox)@, membership, view),
    {
        proof { lemma_step_refl(self, outbox@); }
        if view <= self.timeout_view || self.proposed_views.contains(&view) {
            return;
        }
        let view_change_evidence = match self.timeout_certs.get(&view) {
            Some(tc) => Some(*tc),
            None => None,
        };
        let parent_cert = match view_change_evidence {
            Some(_) => match &self.locked_cert {
                None => return,
                Some(c) => *c,
            },
            None => match self.certs.get(&view.saturating_sub(1)) {
                None => return,
                Some(c) => *c,
            },
        };
        let parent_view = parent_cert.view;
        let proposal = match self.proposals.get(&parent_view) {
            None => return,
            Some(p) => *p,
        };
        // Look the header up by the leaf the parent certificate certified,
        // except for the genesis parent, whose certificate was built over
        // another leaf than the genesis proposal forms.
        let parent_commitment = if parent_view == 0 {
            proposal.leaf_commit
        } else if proposal.leaf_commit != parent_cert.leaf_commit {
            return;
        } else {
            parent_cert.leaf_commit
        };
        let header = match self.headers.get(&(view, parent_commitment)) {
            Some(h) => *h,
            None => {
                // The header asked for on the timeout certificate followed the
                // lock of that moment; if the lock moved since, ask again.
                if view_change_evidence.is_some() {
                    let request_epoch = if is_last_block(proposal.block_header.block_number, self.epoch_height) {
                        proposal.epoch.saturating_add(1)
                    } else {
                        proposal.epoch
                    };
                    if self.is_leader(membership, view, request_epoch) {
                        let ghost o1 = outbox@;
                        let out = ConsensusOutput::RequestBlockAndHeader(
                            BlockAndHeaderRequest { view, epoch: request_epoch, parent_proposal: proposal },
                        );
                        self.emit(outbox, out);
                        proof { lemma_push(old(self), self, old(outbox)@, o1, out); }
                    }
                }
                return;
            },
        };
        let block_commitment = match header.payload_commitment {
            VidCommitment::V2(c) => c,
            VidCommitment::V1(_) => return,
        };
        if !self.blocks.contains_key(&(view, block_commitment)) {
            return;
        }
        let first_proposal_of_epoch = is_last_block(header.block_number.saturating_sub(1), self.epoch_height);
        let proposal_epoch = if first_proposal_of_epoch {
            proposal.epoch.saturating_add(1)
        } else {
            proposal.epoch
        };
        if !self.is_leader(membership, view, proposal_epoch) {
            return;
        }
        // Every epoch after the first hands its successor's DRB on through
        // the leaves of its transition.
        let next_drb_result = if proposal.epoch > 0 && is_epoch_transition(header.block_number, self.epoch_height) {
            match self.drb_results.get(&proposal.epoch.saturating_add(1)) {
                Some(drb) => Some(*drb),
                None => {
                    let ghost o1 = outbox@;
                    let out = ConsensusOutput::RequestDrbResult(proposal.epoch.saturating_add(1));
                    self.emit(outbox, out);
                    proof { lemma_push(old(self), self, old(outbox)@, o1, out); }
                    return;
                },
            }
        } else {
            None
        };
        let next_epoch_justify_qc = if first_proposal_of_epoch {
            match self.certs2.get(&parent_view) {
                None => return,
                Some(c) => Some(*c),
            }
        } else {
            None
        };
        let parent_block_number = match parent_cert.block_number {
            Some(b) => b,
            None => 0,
        };
        let state_cert = if is_epoch_root(parent_block_number, self.epoch_height) {
            let parent_epoch = match parent_cert.epoch {
                None => return,
                Some(e) => e,
            };
            let sc = match self.state_certs.get(&parent_epoch) {
                None => return,
                Some(sc) => *sc,
            };
            if !state_cert_corresponds(&parent_cert, &sc, self.epoch_height) {
                return;
            }
            Some(sc)
        } else {
            None
        };
        let new_proposal = Proposal {
            block_header: header,
            view,
            epoch: proposal_epoch,
            justify_qc: parent_cert,
            next_epoch_justify_qc,
            view_change_evidence,
            next_drb_result,
            state_cert,
            leaf_commit: 0,
        };
        self.proposed_views.insert(view);
        proof {
            if old(self).wf() {
                lemma_wf_frame(old(self), self);
            }
            lemma_step_frame(old(self), self, outbox@);
        }
        let ghost o2 = outbox@;
        let out = ConsensusOutput::SignProposal(new_proposal);
        self.emit(outbox, out);
        proof { lemma_push(old(self), self, old(outbox)@, o2, out); }
    }

    /// A proposal this node built, back from signing: unless its view timed
    /// out meanwhile, persist it, record the propose action, and hold it
    /// until both are confirmed.
    fn on_proposal_signed(&mut self, message: SignedProposal, outbox: &mut Outbox<ConsensusOutput>)
        ensures
            Self::step(old(self), final(self), old(outbox)@, final(outbox)@),
            signed_handled(old(self), final(self), old(outbox)@, final(outbox)@, message),
    {
        proof { lemma_step_refl(self, outbox@); }
        let view = message.data.view;
        let epoch = message.data.epoch;
        // A proposal signed after its view timed out is not sent.
        if !self.proposed_views.contains(&view) || self.pending_proposal.contains_key(&view) || view <= self.timeout_view {
            return;
        }
        let ghost o1 = outbox@;
        let out = ConsensusOutput::PersistProposal(message.duplicate());
        self.emit(outbox, out);
        proof { lemma_push(old(self), self, old(outbox)@, o1, out); }
        let ghost m = *self;
        let ghost o2 = outbox@;
        self.request_action(view, Some(epoch), ActionKind::Propose, outbox);
        proof {
            lemma_step_trans(old(self), &m, self, old(outbox)@, o2, outbox@);
            assert(outbox@[o1.len() as int] == o2[o1.len() as int]);
        }
        let ghost m2 = *self;
        self.pending_proposal.insert(view, message);
        proof {
            if m2.wf() {
                lemma_wf_frame(&m2, self);
            }
            lemma_step_frame(&m2, self, outbox@);
            lemma_step_trans(old(self), &m2, self, old(outbox)@, outbox@, outbox@);
        }
        proof {
            assert(outbox@.take(old(outbox)@.len() as int) =~= old(outbox)@);
        }
    }
}

/// A change of state that emits nothing extends a run.
proof fn lemma_mutate(a: &Consensus, m: &Consensus, b: &Consensus, oa: Seq<ConsensusOutput>, om: Seq<ConsensusOutput>)
    requires
        Consensus::step(a, m, oa, om),
        m.advances(b),
        m.wf() ==> b.wf(),
    ensures
        Consensus::step(a, b, oa, om),
{
    lemma_step_frame(m, b, om);
    lemma_step_trans(a, m, b, oa, om, om);
}

/// Filing a proposal under its own view keeps the proposals keyed.
proof fn lemma_keyed_insert_proposal(m: Map<u64, Proposal>, p: Proposal)
    requires
        forall|v: u64| #[trigger] m.contains_key(v) ==> m[v].view == v,
    ensures
        forall|v: u64| #[trigger] m.insert(p.view, p).contains_key(v) ==> m.insert(p.view, p)[v].view == v,
{
    assert forall|v: u64| #[trigger] m.insert(p.view, p).contains_key(v) implies m.insert(p.view, p)[v].view == v by {
        if v != p.view {
            assert(m.contains_key(v));
        }
    }
}

/// Filing a second certificate under its own view keeps them keyed.
proof fn lemma_keyed_insert_cert2(m: Map<u64, Certificate2>, c: Certificate2)
    requires
        forall|v: u64| #[trigger] m.contains_key(v) ==> m[v].view == v,
    ensures
        forall|v: u64| #[trigger] m.insert(c.view, c).contains_key(v) ==> m.insert(c.view, c)[v].view == v,
{
    assert forall|v: u64| #[trigger] m.insert(c.view, c).contains_key(v) implies m.insert(c.view, c)[v].view == v by {
        if v != c.view {
            assert(m.contains_key(v));
        }
    }
}

/// Filing a first certificate under its own view keeps them keyed.
proof fn lemma_keyed_insert_cert1(m: Map<u64, Certificate1>, c: Certificate1)
    requires
        forall|v: u64| #[trigger] m.contains_key(v) ==> m[v].view == v,
    ensures
        forall|v: u64| #[trigger] m.insert(c.view, c).contains_key(v) ==> m.insert(c.view, c)[v].view == v,
{
    assert forall|v: u64| #[trigger] m.insert(c.view, c).contains_key(v) implies m.insert(c.view, c)[v].view == v by {
        if v != c.view {
            assert(m.contains_key(v));
        }
    }
}

/// Whether the transition leaf at `view` hands on a DRB that its first
/// certificate vouches for, and that is not yet known: it is a transition
/// proposal of an epoch after the first, carries a DRB, and its first
/// certificate certifies exactly it.
pub open spec fn adoptable_drb(c: &Consensus, view: u64) -> Option<(u64, u64)> {
    if !c.spec_proposals().contains_key(view) || !c.spec_certs1().contains_key(view) {
        None
    } else {
        let p = c.spec_proposals()[view];
        let next_epoch = if p.epoch < u64::MAX { (p.epoch + 1) as u64 } else { p.epoch };
        if p.epoch == 0 || !spec_is_epoch_transition(p.block_header.block_number, c.spec_epoch_height()) {
            None
        } else {
            match p.next_drb_result {
                None => None,
                Some(drb) => if c.spec_drb_results().contains_key(next_epoch)
                    || p.leaf_commit != c.spec_certs1()[view].leaf_commit {
                    None
                } else {
                    Some((next_epoch, drb))
                },
            }
        }
    }
}

impl Consensus {
    /// Ask for the parent of `proposal` to be fetched if it is above the
    /// decided view and not held.
    fn request_parent_proposal_if_missing(&self, proposal: &Proposal, outbox: &mut Outbox<ConsensusOutput>)
        ensures
            final(outbox)@ == (if proposal.justify_qc.view > self.spec_last_decided_view()
                && !self.spec_proposals().contains_key(proposal.justify_qc.view) {
                old(outbox)@.push(
                    ConsensusOutput::RequestMissingProposal {
                        view: proposal.justify_qc.view,
                        leaf_commit: proposal.justify_qc.leaf_commit,
                    },
                )
            } else {
                old(outbox)@
            }),
    {
        let parent_view = proposal.justify_qc.view;
        if parent_view > self.last_decided_view && !self.proposals.contains_key(&parent_view) {
            self.emit(
                outbox,
                ConsensusOutput::RequestMissingProposal {
                    view: parent_view,
                    leaf_commit: proposal.justify_qc.leaf_commit,
                },
            );
        }
    }

    /// Adopt the successor epoch's DRB carried by the transition leaf at
    /// `view` once a first certificate over that very leaf is held: a quorum
    /// vouched for it.
    fn adopt_certified_drb(&mut self, view: u64)
        ensures
            *final(self) == (Consensus { drb_results: final(self).drb_results, ..*old(self) }),
            final(self).spec_drb_results() == (match adoptable_drb(old(self), view) {
                Some((e, drb)) => old(self).spec_drb_results().insert(e, drb),
                None => old(self).spec_drb_results(),
            }),
    {
        let proposal = match self.proposals.get(&view) {
            None => return,
            Some(p) => *p,
        };
        if proposal.epoch == 0 || !is_epoch_transition(proposal.block_header.block_number, self.epoch_height) {
            return;
        }
        let drb = match proposal.next_drb_result {
            None => return,
            Some(d) => d,
        };
        let next_epoch = proposal.epoch.saturating_add(1);
        if self.drb_results.contains_key(&next_epoch) {
            return;
        }
        let cert = match self.certs.get(&view) {
            None => return,
            Some(c) => *c,
        };
        if proposal.leaf_commit != cert.leaf_commit {
            return;
        }
        self.drb_results.insert(next_epoch, drb);
    }

    /// File a first certificate above the decide floor, unless one is held
    /// for its view.
    fn handle_certificate1(&mut self, cert: Certificate1) -> (r: Protocol)
        ensures
            r is Continue,
            old(self).certs_keyed() ==> final(self).certs_keyed(),
            final(self).spec_certs1() == (if cert.view <= old(self).spec_decide_floor() || old(self).spec_certs1().contains_key(cert.view) {
                old(self).spec_certs1()
            } else {
                old(self).spec_certs1().insert(cert.view, cert)
            }),
            *final(self) == (Consensus { certs: final(self).certs, drb_results: final(self).drb_results, ..*old(self) }),
    {
        let view = cert.view;
        if view <= self.decide_floor() {
            return Protocol::Continue;
        }
        if !self.certs.contains_key(&view) {
            self.certs.insert(view, cert);
            proof {
                if old(self).certs_keyed() {
                    lemma_keyed_insert_cert1(old(self).spec_certs1(), cert);
                }
            }
        }
        self.adopt_certified_drb(view);
        Protocol::Continue
    }
}

impl Consensus {
    /// File a second certificate above the decide floor, unless one is held
    /// for its view. A first-obtained one is relayed unless its view was
    /// decided, and its proposal is asked for if it is missing.
    fn handle_certificate2(&mut self, cert: Certificate2, outbox: &mut Outbox<ConsensusOutput>) -> (r: Protocol)
        ensures
            r is Continue,
            Self::step(old(self), final(self), old(outbox)@, final(outbox)@),
            final(self).spec_certs2() == (if cert.view <= old(self).spec_decide_floor() || old(self).spec_certs2().contains_key(cert.view) {
                old(self).spec_certs2()
            } else {
                old(self).spec_certs2().insert(cert.view, cert)
            }),
            *final(self) == (Consensus { certs2: final(self).certs2, ..*old(self) }),
            final(outbox)@ == old(outbox)@ + cert2_outputs(old(self), cert),
    {
        proof { lemma_step_refl(self, outbox@); }
        let view = cert.view;
        if view <= self.decide_floor() || self.certs2.contains_key(&view) {
            return Protocol::Continue;
        }
        if !self.decided_views.contains(&view) {
            let ghost o = outbox@;
            self.emit(outbox, ConsensusOutput::SendCertificate2(cert));
            proof { lemma_push(old(self), self, old(outbox)@, o, ConsensusOutput::SendCertificate2(cert)); }
        }
        if view > self.last_decided_view && !self.proposals.contains_key(&view) {
            let ghost o = outbox@;
            let out = ConsensusOutput::RequestMissingProposal { view, leaf_commit: cert.leaf_commit };
            self.emit(outbox, out);
            proof { lemma_push(old(self), self, old(outbox)@, o, out); }
        }
        proof { assert(outbox@ =~= old(outbox)@ + cert2_outputs(old(self), cert)); }
        let ghost m = *self;
        self.certs2.insert(view, cert);
        proof {
            if m.wf() {
                lemma_keyed_insert_cert2(m.spec_certs2(), cert);
                lemma_wf_frame(&m, self);
            }
            lemma_mutate(old(self), &m, self, old(outbox)@, outbox@);
        }
        Protocol::Continue
    }

    /// A timeout of `view` at or past the current view raises the timeout
    /// barrier to it and sends a timeout vote with the highest certificate
    /// held; a stale one is ignored. Either way the step ends here.
    fn handle_timeout(&mut self, view: u64, epoch: u64, outbox: &mut Outbox<ConsensusOutput>) -> (r: Protocol)
        ensures
            r is Abort,
            Self::step(old(self), final(self), old(outbox)@, final(outbox)@),
            view < old(self).spec_current_view() ==> *final(self) == *old(self) && final(outbox)@ == old(outbox)@,
            view >= old(self).spec_current_view() ==> {
                &&& final(self).spec_timeout_view() == max_spec(old(self).spec_timeout_view(), view)
                &&& *final(self) == (Consensus { timeout_view: final(self).timeout_view, ..*old(self) })
                &&& final(outbox)@ == old(outbox)@.push(
                    ConsensusOutput::SendTimeoutVote(
                        TimeoutVote { view, epoch: Some(epoch) },
                        old(self).spec_catchup_evidence(),
                    ),
                )
            },
    {
        proof { lemma_step_refl(self, outbox@); }
        if view < self.current_view {
            return Protocol::Abort;
        }
        let evidence = self.catchup_evidence();
        let ghost m = *self;
        if view > self.timeout_view {
            self.timeout_view = view;
        }
        proof {
            if m.wf() {
                lemma_wf_frame(&m, self);
            }
            lemma_mutate(old(self), &m, self, old(outbox)@, outbox@);
        }
        let ghost o = outbox@;
        let out = ConsensusOutput::SendTimeoutVote(TimeoutVote { view, epoch: Some(epoch) }, evidence);
        self.emit(outbox, out);
        proof { lemma_push(old(self), self, old(outbox)@, o, out); }
        Protocol::Abort
    }

    /// A timeout certificate for `view - 1` moves the node into `view`:
    /// filed once, announced, relayed, and, for the leader of `view`, the
    /// start of building a proposal on the locked leaf. A stale one ends the
    /// step.
    fn handle_timeout_certificate(&mut self, cert: TimeoutCertificate, epoch: u64, membership: &Membership, outbox: &mut Outbox<ConsensusOutput>) -> (r: Protocol)
        ensures
            Self::step(old(self), final(self), old(outbox)@, final(outbox)@),
            ({
                let view = if cert.view < u64::MAX { (cert.view + 1) as u64 } else { cert.view };
                &&& view < old(self).spec_current_view() ==> r is Abort && *final(self) == *old(self)
                    && final(outbox)@ == old(outbox)@
                &&& view >= old(self).spec_current_view() && old(self).spec_timeout_certs().contains_key(view)
                    ==> r is Continue && *final(self) == *old(self) && final(outbox)@ == old(outbox)@
                &&& view >= old(self).spec_current_view() && !old(self).spec_timeout_certs().contains_key(view)
                    ==> {
                    &&& final(self).spec_timeout_certs() == old(self).spec_timeout_certs().insert(view, cert)
                    &&& final(self).spec_current_view() == view
                    &&& final(self).spec_current_epoch() == Some(epoch)
                    &&& *final(self) == (Consensus {
                        timeout_certs: final(self).timeout_certs,
                        current_view: final(self).current_view,
                        current_epoch: final(self).current_epoch,
                        ..*old(self)
                    })
                    &&& final(outbox)@.len() >= old(outbox)@.len() + 3
                    &&& final(outbox)@[old(outbox)@.len() as int] == ConsensusOutput::ViewChanged(view, epoch)
                    &&& final(outbox)@[old(outbox)@.len() as int + 1] == ConsensusOutput::ViewTimedOut(cert.view)
                    &&& final(outbox)@[old(outbox)@.len() as int + 2] == ConsensusOutput::SendTimeoutCertificate(cert, view, epoch)
                    &&& r is Continue <==> leads_after_timeout(old(self), membership, view, epoch)
                }
            }),
            timeout_cert_handled(old(self), final(self), old(outbox)@, final(outbox)@, membership, cert, epoch),
    {
        proof { lemma_step_refl(self, outbox@); }
        let view = cert.view.saturating_add(1);
        if view < self.current_view {
            return Protocol::Abort;
        }
        if self.timeout_certs.contains_key(&view) {
            return Protocol::Continue;
        }
        let ghost m = *self;
        self.timeout_certs.insert(view, cert);
        self.current_view = view;
        self.current_epoch = Some(epoch);
        proof {
            if m.wf() {
                lemma_wf_frame(&m, self);
            }
            lemma_mutate(old(self), &m, self, old(outbox)@, outbox@);
        }
        let ghost o0 = outbox@;
        let out1 = ConsensusOutput::ViewChanged(view, epoch);
        self.emit(outbox, out1);
        proof { lemma_push(old(self), self, old(outbox)@, o0, out1); }
        let ghost o1 = outbox@;
        let out2 = ConsensusOutput::ViewTimedOut(cert.view);
        self.emit(outbox, out2);
        proof { lemma_push(old(self), self, old(outbox)@, o1, out2); }
        let ghost o2 = outbox@;
        let out3 = ConsensusOutput::SendTimeoutCertificate(cert, view, epoch);
        self.emit(outbox, out3);
        proof {
            lemma_push(old(self), self, old(outbox)@, o2, out3);
            assert(outbox@ =~= old(outbox)@ + seq![out1, out2, out3] + Seq::<ConsensusOutput>::empty());
        }
        if !self.is_leader(membership, view, epoch) {
            return Protocol::Abort;
        }
        let locked_view = match &self.locked_cert {
            None => return Protocol::Abort,
            Some(c) => c.view,
        };
        let proposal = match self.proposals.get(&locked_view) {
            None => return Protocol::Abort,
            Some(p) => *p,
        };
        // No epoch change on a timeout certificate: an epoch cannot change
        // after a timeout.
        let ghost o3 = outbox@;
        let out4 = ConsensusOutput::RequestBlockAndHeader(
            BlockAndHeaderRequest { view, epoch, parent_proposal: proposal },
        );
        self.emit(outbox, out4);
        proof {
            lemma_push(old(self), self, old(outbox)@, o3, out4);
            assert(outbox@ =~= old(outbox)@ + seq![out1, out2, out3] + seq![out4]);
        }
        Protocol::Continue
    }
}

impl Consensus {
    /// A quorum certificate at or past the current view lets a node that fell
    /// behind catch up: the certificate is filed, a second vote cast if it
    /// can be, and the node moves on to the view after it.
    fn handle_advance_view(&mut self, cert: Certificate1, epoch: u64, membership: &Membership, outbox: &mut Outbox<ConsensusOutput>) -> (r: Protocol)
        ensures
            r is Continue,
            Self::step(old(self), final(self), old(outbox)@, final(outbox)@),
            cert.view < old(self).spec_current_view() ==> *final(self) == *old(self) && final(outbox)@ == old(outbox)@,
            cert.view >= old(self).spec_current_view() ==> {
                &&& final(self).spec_certs1().contains_key(cert.view)
                &&& cert.view < u64::MAX ==> final(self).spec_current_view() > cert.view
            },
            advanced_view(old(self), final(self), old(outbox)@, final(outbox)@, membership, cert, epoch),
    {
        proof { lemma_step_refl(self, outbox@); }
        let view = cert.view;
        if view < self.current_view {
            return Protocol::Continue;
        }
        let ghost m = *self;
        if !self.certs.contains_key(&view) {
            self.certs.insert(view, cert);
            proof {
                if m.wf() {
                    lemma_keyed_insert_cert1(m.spec_certs1(), cert);
                }
            }
        }
        self.adopt_certified_drb(view);
        proof {
            if m.wf() {
                lemma_wf_frame(&m, self);
            }
            lemma_mutate(old(self), &m, self, old(outbox)@, outbox@);
        }
        let ghost m1 = *self;
        let ghost o1 = outbox@;
        self.maybe_vote_2_and_update_lock(view, membership, outbox);
        proof { lemma_step_trans(old(self), &m1, self, old(outbox)@, o1, outbox@); }
        let next_view = view.saturating_add(1);
        if next_view > self.current_view {
            let ghost m2 = *self;
            self.current_view = next_view;
            self.current_epoch = Some(epoch);
            proof {
                if m2.wf() {
                    lemma_wf_frame(&m2, self);
                }
                lemma_mutate(old(self), &m2, self, old(outbox)@, outbox@);
            }
            let ghost o2 = outbox@;
            let out = ConsensusOutput::ViewChanged(next_view, epoch);
            self.emit(outbox, out);
            proof { lemma_push(old(self), self, old(outbox)@, o2, out); }
        }
        Protocol::Continue
    }

    /// An epoch-change message moves the node into the first view of the
    /// next epoch, unless it is for an epoch already left behind or older
    /// than the lock. Its certificates and boundary proposal are filed, and
    /// the first leader of the new epoch starts building a proposal.
    fn handle_epoch_change(&mut self, message: EpochChangeMessage, membership: &Membership, outbox: &mut Outbox<ConsensusOutput>) -> (r: Protocol)
        ensures
            Self::step(old(self), final(self), old(outbox)@, final(outbox)@),
            r is Abort <==> ((old(self).spec_current_epoch() matches Some(c) && message.cert2.epoch < c)
                || (old(self).spec_locked() matches Some(l) && l.view > message.cert1.view)
                || message.proposal.view != message.cert2.view),
            r is Abort ==> *final(self) == *old(self) && final(outbox)@ == old(outbox)@,
            r is Continue ==> {
                &&& final(self).spec_current_view() == max_spec(old(self).spec_current_view(), if message.cert2.view < u64::MAX { (message.cert2.view + 1) as u64 } else { message.cert2.view })
                &&& final(self).spec_current_epoch() == Some(if message.cert2.epoch < u64::MAX { (message.cert2.epoch + 1) as u64 } else { message.cert2.epoch })
                &&& final(self).spec_proposals() == old(self).spec_proposals().insert(message.cert2.view, message.proposal)
                &&& final(self).spec_certs2() == old(self).spec_certs2().insert(message.cert2.view, message.cert2)
                &&& final(self).spec_certs1() == old(self).spec_certs1().insert(message.cert1.view, message.cert1)
            },
            epoch_change_handled(old(self), final(self), old(outbox)@, final(outbox)@, membership, message),
    {
        proof { lemma_step_refl(self, outbox@); }
        let cert1 = message.cert1;
        let cert2 = message.cert2;
        let proposal = message.proposal;
        // Epochs, not views, are compared, so a node that timed out past a
        // boundary it never saw can still recover through a new epoch change.
        let stale = match self.current_epoch {
            Some(current) => cert2.epoch < current,
            None => false,
        };
        if stale {
            return Protocol::Abort;
        }
        let older_than_lock = match &self.locked_cert {
            Some(l) => l.view > cert1.view,
            None => false,
        };
        if older_than_lock {
            return Protocol::Abort;
        }
        // The boundary proposal is filed under the view it was made for.
        if proposal.view != cert2.view {
            return Protocol::Abort;
        }
        let next_view = cert2.view.saturating_add(1);
        let next_epoch = cert2.epoch.saturating_add(1);
        let ghost m = *self;
        if next_view > self.current_view {
            self.current_view = next_view;
        }
        self.current_epoch = Some(next_epoch);
        proof {
            if m.wf() {
                lemma_wf_frame(&m, self);
            }
            lemma_mutate(old(self), &m, self, old(outbox)@, outbox@);
        }
        let ghost o1 = outbox@;
        let out1 = ConsensusOutput::ViewChanged(next_view, next_epoch);
        self.emit(outbox, out1);
        proof { lemma_push(old(self), self, old(outbox)@, o1, out1); }
        if self.is_leader(membership, next_view, next_epoch) {
            let ghost o2 = outbox@;
            let out2 = ConsensusOutput::RequestBlockAndHeader(
                BlockAndHeaderRequest { view: next_view, epoch: next_epoch, parent_proposal: proposal },
            );
            self.emit(outbox, out2);
            proof {
                lemma_push(old(self), self, old(outbox)@, o2, out2);
                assert(outbox@ =~= o1.push(out1) + seq![out2]);
            }
        } else {
            proof { assert(outbox@ =~= o1.push(out1) + Seq::<ConsensusOutput>::empty()); }
        }
        let boundary_view = cert2.view;
        let ghost m2 = *self;
        self.proposals.insert(boundary_view, proposal);
        self.certs.insert(cert1.view, cert1);
        self.certs2.insert(boundary_view, cert2);
        proof {
            if m2.wf() {
                lemma_keyed_insert_proposal(m2.spec_proposals(), proposal);
                lemma_keyed_insert_cert1(m2.spec_certs1(), cert1);
                lemma_keyed_insert_cert2(m2.spec_certs2(), cert2);
                lemma_wf_frame(&m2, self);
            }
            lemma_mutate(old(self), &m2, self, old(outbox)@, outbox@);
        }
        let ghost m3 = *self;
        self.adopt_certified_drb(boundary_view);
        proof {
            if m3.wf() {
                lemma_wf_frame(&m3, self);
            }
            lemma_mutate(old(self), &m3, self, old(outbox)@, outbox@);
        }
        Protocol::Continue
    }
}

/// Whether a validated proposal is taken in by the node: still wanted, its
/// justify QC names an epoch, and it is safe.
pub open spec fn accepts_proposal(c: &Consensus, p: Proposal) -> bool {
    &&& !(opt_le(Some((p.view + 1) as u64), c.spec_locked_view()) && p.view < u64::MAX
        || (c.spec_proposals().contains_key(p.view) && c.spec_vid_shares().contains_key(p.view)))
    &&& p.justify_qc.epoch is Some
    &&& spec_is_safe(c.spec_locked(), p)
}

impl Consensus {
    /// A proposal fetched from a peer to fill a gap is filed if it is above
    /// the decided view and not already held.
    fn handle_fetched_proposal(&mut self, message: SignedProposal, outbox: &mut Outbox<ConsensusOutput>)
        ensures
            Self::step(old(self), final(self), old(outbox)@, final(outbox)@),
            final(self).spec_proposals() == (if message.data.view <= old(self).spec_last_decided_view()
                || old(self).spec_proposals().contains_key(message.data.view) {
                old(self).spec_proposals()
            } else {
                old(self).spec_proposals().insert(message.data.view, message.data)
            }),
            fetched_handled(old(self), final(self), old(outbox)@, final(outbox)@, message),
    {
        proof { lemma_step_refl(self, outbox@); }
        let proposal = message.data;
        let view = proposal.view;
        if view <= self.last_decided_view || self.proposals.contains_key(&view) {
            return;
        }
        let ghost m = *self;
        self.leaves.insert(view, Leaf { proposal, payload: None });
        self.signed_proposals.insert(view, message);
        proof {
            if m.wf() {
                lemma_wf_frame(&m, self);
            }
            lemma_mutate(old(self), &m, self, old(outbox)@, outbox@);
        }
        let ghost o1 = outbox@;
        self.request_parent_proposal_if_missing(&proposal, outbox);
        proof {
            lemma_push(old(self), self, old(outbox)@, o1, ConsensusOutput::RequestMissingProposal {
                view: proposal.justify_qc.view,
                leaf_commit: proposal.justify_qc.leaf_commit,
            });
            if outbox@ == o1 {
                assert(Self::step(old(self), self, old(outbox)@, outbox@));
            }
            assert(outbox@ =~= old(outbox)@ + parent_request(old(self), proposal));
        }
        let ghost m2 = *self;
        self.proposals.insert(view, proposal);
        proof {
            if m2.wf() {
                lemma_keyed_insert_proposal(m2.spec_proposals(), proposal);
                lemma_wf_frame(&m2, self);
            }
            lemma_mutate(old(self), &m2, self, old(outbox)@, outbox@);
        }
        let ghost m3 = *self;
        self.adopt_certified_drb(view);
        proof {
            if m3.wf() {
                lemma_wf_frame(&m3, self);
            }
            lemma_mutate(old(self), &m3, self, old(outbox)@, outbox@);
        }
    }
}

impl Consensus {
    /// A validated proposal together with this node's share of its payload.
    /// If the node takes it in ([`accepts_proposal`]) it is filed with its
    /// share, a missing parent is asked for, a state certificate it carries
    /// is kept, and the state of its block is asked to be validated. A
    /// transition proposal whose DRB contradicts the one known is dropped
    /// there; one whose DRB is not yet known asks for it. The leader of the
    /// next view starts building on it.
    fn handle_proposal_with_vid_share(&mut self, sender: u64, message: SignedProposal, vid_share: VidShare, membership: &Membership, outbox: &mut Outbox<ConsensusOutput>) -> (r: Protocol)
        ensures
            Self::step(old(self), final(self), old(outbox)@, final(outbox)@),
            !accepts_proposal(old(self), message.data) ==> r is Abort && *final(self) == *old(self)
                && final(outbox)@ == old(outbox)@,
            accepts_proposal(old(self), message.data) ==> {
                &&& final(self).spec_proposals() == old(self).spec_proposals().insert(message.data.view, message.data)
                &&& final(self).spec_vid_shares() == old(self).spec_vid_shares().insert(message.data.view, vid_share)
                &&& final(self).spec_signed().contains_key(message.data.view)
            },
            accepts_proposal(old(self), message.data) ==> (r is Continue <==> !drb_refused(final(self), message.data)),
            old(self).same_except_proposal_taken(final(self)),
            forall|i: int| old(outbox)@.len() <= i < final(outbox)@.len() ==> handling_output(#[trigger] final(outbox)@[i]),
            r is Continue ==> exists|i: int|
                old(outbox)@.len() <= i && i + 1 < final(outbox)@.len()
                    && #[trigger] final(outbox)@[i] == ConsensusOutput::RequestState(state_request_for(message.data, vid_share))
                    && final(outbox)@[i + 1] == (ConsensusOutput::ProposalValidated { proposal: message, sender }),
    {
        proof { lemma_step_refl(self, outbox@); }
        let ghost signed = message;
        let proposal = message.data;
        let view = proposal.view;
        if !self.wants_proposal_for_view(view) {
            return Protocol::Abort;
        }
        let epoch = proposal.epoch;
        // The justify QC may be of another epoch, but it must name one.
        if proposal.justify_qc.epoch.is_none() {
            return Protocol::Abort;
        }
        if self.is_safe(&proposal).is_err() {
            return Protocol::Abort;
        }
        let block_number = proposal.block_header.block_number;
        let payload_size = vid_share.payload_byte_len;
        // Filed before the DRB check so a node catching up does not lose it;
        // the first vote waits for the DRB.
        let ghost m = *self;
        self.proposals.insert(view, proposal);
        self.signed_proposals.insert(view, message.duplicate());
        self.leaves.insert(view, Leaf { proposal, payload: None });
        self.vid_shares.insert(view, vid_share);
        proof {
            if m.wf() {
                lemma_keyed_insert_proposal(m.spec_proposals(), proposal);
                lemma_wf_frame(&m, self);
            }
            lemma_mutate(old(self), &m, self, old(outbox)@, outbox@);
        }
        let ghost m1 = *self;
        self.adopt_certified_drb(view);
        proof {
            if m1.wf() {
                lemma_wf_frame(&m1, self);
            }
            lemma_mutate(old(self), &m1, self, old(outbox)@, outbox@);
        }
        let ghost o1 = outbox@;
        self.request_parent_proposal_if_missing(&proposal, outbox);
        proof {
            lemma_push(old(self), self, old(outbox)@, o1, ConsensusOutput::RequestMissingProposal {
                view: proposal.justify_qc.view,
                leaf_commit: proposal.justify_qc.leaf_commit,
            });
        }
        match proposal.state_cert {
            Some(sc) => {
                if !self.state_certs.contains_key(&sc.epoch) {
                    let ghost m2 = *self;
                    self.state_certs.insert(sc.epoch, sc);
                    proof {
                        if m2.wf() {
                            lemma_wf_frame(&m2, self);
                        }
                        lemma_mutate(old(self), &m2, self, old(outbox)@, outbox@);
                    }
                }
            },
            None => {},
        }
        // A missing DRB is recoverable, a contradicting one is not.
        if epoch > 0 && is_epoch_transition(block_number, self.epoch_height) {
            let next_epoch = epoch.saturating_add(1);
            match self.drb_results.get(&next_epoch) {
                Some(drb) => {
                    if !same_opt(proposal.next_drb_result, Some(*drb)) {
                        return Protocol::Abort;
                    }
                },
                None => {
                    let ghost o2 = outbox@;
                    let out = ConsensusOutput::RequestDrbResult(next_epoch);
                    self.emit(outbox, out);
                    proof { lemma_push(old(self), self, old(outbox)@, o2, out); }
                },
            }
        }
        let ghost o3 = outbox@;
        let request = ConsensusOutput::RequestState(
            StateRequest {
                view,
                parent_view: proposal.justify_qc.view,
                epoch,
                block: block_number,
                proposal,
                parent_commitment: proposal.justify_qc.leaf_commit,
                payload_size,
            },
        );
        self.emit(outbox, request);
        proof { lemma_push(old(self), self, old(outbox)@, o3, request); }
        let next_epoch = if is_last_block(block_number, self.epoch_height) {
            epoch.saturating_add(1)
        } else {
            epoch
        };
        let ghost o4 = outbox@;
        let validated = ConsensusOutput::ProposalValidated { proposal: message, sender };
        self.emit(outbox, validated);
        proof { lemma_push(old(self), self, old(outbox)@, o4, validated); }
        let next_view = view.saturating_add(1);
        if self.is_leader(membership, next_view, next_epoch) {
            let ghost o5 = outbox@;
            let out = ConsensusOutput::RequestBlockAndHeader(
                BlockAndHeaderRequest { view: next_view, epoch: next_epoch, parent_proposal: proposal },
            );
            self.emit(outbox, out);
            proof { lemma_push(old(self), self, old(outbox)@, o5, out); }
        }
        proof {
            assert(outbox@[o3.len() as int] == request);
            assert(outbox@[o3.len() as int + 1] == validated);
            assert(request == ConsensusOutput::RequestState(state_request_for(signed.data, vid_share)));
        }
        Protocol::Continue
    }

    /// A proposal met this node's share of its payload: parked halves of
    /// this and older views can no longer pair and are dropped, the pairing
    /// is announced, and the pair is handled.
    fn on_proposal_paired(&mut self, sender: u64, message: SignedProposal, vid_share: VidShare, membership: &Membership, outbox: &mut Outbox<ConsensusOutput>) -> (r: Protocol)
        ensures
            Self::step(old(self), final(self), old(outbox)@, final(outbox)@),
            paired(old(self), final(self), old(outbox)@, final(outbox)@, message.data, vid_share, r),
            old(self).same_except_proposal_taken(final(self)),
    {
        let view = message.data.view;
        let ghost m = *self;
        if view < u64::MAX {
            pair_map_retain_from(&mut self.unpaired_proposals, view + 1);
            pair_map_retain_from(&mut self.unpaired_vid_shares, view + 1);
        } else {
            self.unpaired_proposals = BTreeMap::new();
            self.unpaired_vid_shares = BTreeMap::new();
        }
        proof {
            lemma_step_refl(old(self), old(outbox)@);
            if m.wf() {
                lemma_wf_frame(&m, self);
            }
            lemma_mutate(old(self), &m, self, old(outbox)@, outbox@);
        }
        let ghost o1 = outbox@;
        let out = ConsensusOutput::ProposalPaired { proposal: message.duplicate(), vid_share };
        self.emit(outbox, out);
        proof { lemma_push(old(self), self, old(outbox)@, o1, out); }
        let ghost m2 = *self;
        let ghost o2 = outbox@;
        let ghost p = message.data;
        proof {
            assert(m2.spec_proposals() == old(self).spec_proposals());
            assert(m2.spec_vid_shares() == old(self).spec_vid_shares());
            assert(m2.spec_locked() == old(self).spec_locked());
            assert(accepts_proposal(&m2, p) == accepts_proposal(old(self), p));
        }
        let r = self.handle_proposal_with_vid_share(sender, message, vid_share, membership, outbox);
        proof {
            lemma_step_trans(old(self), &m2, self, old(outbox)@, o2, outbox@);
            assert(outbox@.subrange(0, o2.len() as int) == o2);
            assert(outbox@[o1.len() as int] == o2[o1.len() as int]);
            assert(o2[o1.len() as int] == out);
        }
        r
    }

    /// A validated proposal meets the share of its payload parked under the
    /// same view and payload commitment, or is parked to wait for it. A
    /// proposal whose payload was dispersed in the older scheme is dropped.
    fn pair_proposal(&mut self, sender: u64, message: SignedProposal, membership: &Membership, outbox: &mut Outbox<ConsensusOutput>) -> (r: Protocol)
        ensures
            old(self).same_except_proposal_taken(final(self)),
            forall|i: int| old(outbox)@.len() < i < final(outbox)@.len() ==> handling_output(#[trigger] final(outbox)@[i]),
            Self::step(old(self), final(self), old(outbox)@, final(outbox)@),
            message.data.block_header.payload_commitment is V1 ==> r is Abort && *final(self) == *old(self)
                && final(outbox)@ == old(outbox)@,
            message.data.block_header.payload_commitment matches VidCommitment::V2(c) ==> {
                let key = (message.data.view, c);
                &&& old(self).unpaired_vid_shares@.contains_key(key) ==> paired(
                    old(self),
                    final(self),
                    old(outbox)@,
                    final(outbox)@,
                    message.data,
                    old(self).unpaired_vid_shares@[key],
                    r,
                )
                &&& !old(self).unpaired_vid_shares@.contains_key(key) ==> {
                    &&& r is Abort
                    &&& *final(self) == (Consensus { unpaired_proposals: final(self).unpaired_proposals, ..*old(self) })
                    &&& final(self).unpaired_proposals@ == old(self).unpaired_proposals@.insert(key, (sender, message))
                    &&& final(outbox)@ == old(outbox)@
                }
            },
    {
        proof { lemma_step_refl(self, outbox@); }
        let view = message.data.view;
        let commit = match message.data.block_header.payload_commitment {
            VidCommitment::V2(c) => c,
            VidCommitment::V1(_) => return Protocol::Abort,
        };
        let ghost m = *self;
        if !self.unpaired_vid_shares.contains_key(&(view, commit)) {
            self.unpaired_proposals.insert((view, commit), (sender, message));
            proof {
                if m.wf() {
                    lemma_wf_frame(&m, self);
                }
                lemma_mutate(old(self), &m, self, old(outbox)@, outbox@);
            }
            return Protocol::Abort;
        }
        match self.unpaired_vid_shares.remove(&(view, commit)) {
            Some(vid_share) => {
                proof {
                    if m.wf() {
                        lemma_wf_frame(&m, self);
                    }
                    lemma_mutate(old(self), &m, self, old(outbox)@, outbox@);
                }
                let ghost m2 = *self;
                let ghost o2 = outbox@;
                let ghost p = message.data;
                let r = self.on_proposal_paired(sender, message, vid_share, membership, outbox);
                proof {
                    lemma_step_trans(old(self), &m2, self, old(outbox)@, o2, outbox@);
                    lemma_paired_frame(&m2, old(self), self, o2, outbox@, p, vid_share, r);
                }
                r
            },
            None => Protocol::Abort,
        }
    }

    /// This node's share meets the proposal parked under the same view and
    /// payload commitment, or is parked to wait for it.
    fn pair_vid_share(&mut self, vid_share: VidShare, membership: &Membership, outbox: &mut Outbox<ConsensusOutput>) -> (r: Protocol)
        ensures
            old(self).same_except_proposal_taken(final(self)),
            forall|i: int| old(outbox)@.len() < i < final(outbox)@.len() ==> handling_output(#[trigger] final(outbox)@[i]),
            Self::step(old(self), final(self), old(outbox)@, final(outbox)@),
            ({
                let key = (vid_share.view, vid_share.payload_commitment);
                &&& old(self).unpaired_proposals@.contains_key(key) ==> paired(
                    old(self),
                    final(self),
                    old(outbox)@,
                    final(outbox)@,
                    old(self).unpaired_proposals@[key].1.data,
                    vid_share,
                    r,
                )
                &&& !old(self).unpaired_proposals@.contains_key(key) ==> {
                    &&& r is Abort
                    &&& *final(self) == (Consensus { unpaired_vid_shares: final(self).unpaired_vid_shares, ..*old(self) })
                    &&& final(self).unpaired_vid_shares@ == old(self).unpaired_vid_shares@.insert(key, vid_share)
                    &&& final(outbox)@ == old(outbox)@
                }
            }),
    {
        proof { lemma_step_refl(self, outbox@); }
        let key = (vid_share.view, vid_share.payload_commitment);
        let ghost m = *self;
        if !self.unpaired_proposals.contains_key(&key) {
            self.unpaired_vid_shares.insert(key, vid_share);
            proof {
                if m.wf() {
                    lemma_wf_frame(&m, self);
                }
                lemma_mutate(old(self), &m, self, old(outbox)@, outbox@);
            }
            return Protocol::Abort;
        }
        match self.unpaired_proposals.remove(&key) {
            Some(entry) => {
                proof {
                    if m.wf() {
                        lemma_wf_frame(&m, self);
                    }
                    lemma_mutate(old(self), &m, self, old(outbox)@, outbox@);
                }
                let (sender, message) = entry;
                let ghost m2 = *self;
                let ghost o2 = outbox@;
                let ghost p = message.data;
                let r = self.on_proposal_paired(sender, message, vid_share, membership, outbox);
                proof {
                    lemma_step_trans(old(self), &m2, self, old(outbox)@, o2, outbox@);
                    lemma_paired_frame(&m2, old(self), self, o2, outbox@, p, vid_share, r);
                }
                r
            },
            None => Protocol::Abort,
        }
    }
}

/// What pairing the proposal `p` with this node's share `vid_share` did,
/// from `start` to `end`: the pairing is announced first, and the pair is
/// taken in exactly when [`accepts_proposal`] says, the proposal and share
/// filed under its view; a pair not taken in changes no proposal or share.
pub open spec fn paired(start: &Consensus, end: &Consensus, before: Seq<ConsensusOutput>, after: Seq<ConsensusOutput>, p: Proposal, vid_share: VidShare, r: Protocol) -> bool {
    &&& start.same_except_proposal_taken(end)
    &&& forall|i: int| before.len() < i < after.len() ==> handling_output(#[trigger] after[i])
    &&& after.len() > before.len()
    &&& after[before.len() as int] matches ConsensusOutput::ProposalPaired { proposal, vid_share: vs } && proposal.data == p
        && vs == vid_share
    &&& accepts_proposal(start, p) ==> {
        &&& r is Continue <==> !drb_refused(end, p)
        &&& end.spec_proposals() == start.spec_proposals().insert(p.view, p)
        &&& end.spec_vid_shares() == start.spec_vid_shares().insert(p.view, vid_share)
        &&& end.spec_signed().contains_key(p.view)
    }
    &&& !accepts_proposal(start, p) ==> {
        &&& r is Abort
        &&& after.len() == before.len() + 1
        &&& end.spec_proposals() == start.spec_proposals()
        &&& end.spec_vid_shares() == start.spec_vid_shares()
        &&& end.spec_locked() == start.spec_locked()
        &&& end.spec_current_view() == start.spec_current_view()
    }
}

/// Where a first certificate ends up: one at or below the decide floor, or
/// for a view that already has one, is not filed.
pub open spec fn filed_cert1(start: &Consensus, cert: Certificate1) -> Map<u64, Certificate1> {
    if cert.view <= start.spec_decide_floor() || start.spec_certs1().contains_key(cert.view) {
        start.spec_certs1()
    } else {
        start.spec_certs1().insert(cert.view, cert)
    }
}

/// What one input does, beside what every run does ([`Consensus::step`]).
/// After most inputs the node retries its votes, decisions and proposals;
/// the records an input files are as its handling left them, since a retry
/// moves only the votes, the lock and the view it leads to, the decisions
/// and the views proposed in.
pub open spec fn applied(start: &Consensus, end: &Consensus, before: Seq<ConsensusOutput>, after: Seq<ConsensusOutput>, input: ConsensusInput) -> bool {
    match input {
        ConsensusInput::BlockBuilt { view, epoch, payload, metadata, payload_commitment } => match payload_commitment {
            VidCommitment::V2(c) => {
                &&& end.spec_blocks() == start.spec_blocks().insert((view, c), payload)
                &&& after.len() > before.len()
                &&& after[before.len() as int] matches ConsensusOutput::RequestVidDisperse {
                    view: v,
                    epoch: e,
                    payload: pl,
                    metadata: md,
                    payload_commitment: pc,
                } && v == view && e == epoch && pl.bytes@ == payload.bytes@ && md == metadata && pc == c
            },
            VidCommitment::V1(_) => end.spec_blocks() == start.spec_blocks(),
        },
        ConsensusInput::BlockReconstructed(view, c) => end.spec_reconstructed() == start.spec_reconstructed().insert(
            (view, c),
        ),
        ConsensusInput::VidDisperseCreated(view, c) => end.spec_reconstructed() == start.spec_reconstructed().insert(
            (view, c),
        ),
        ConsensusInput::Certificate1(cert, _) => end.spec_certs1() == filed_cert1(start, cert),
        ConsensusInput::Certificate2(cert, _) => {
            let sent = cert2_outputs(start, cert);
            &&& end.spec_certs2() == (if cert.view <= start.spec_decide_floor() || start.spec_certs2().contains_key(
                cert.view,
            ) {
                start.spec_certs2()
            } else {
                start.spec_certs2().insert(cert.view, cert)
            })
            &&& after.len() >= before.len() + sent.len()
            &&& after.subrange(before.len() as int, before.len() + sent.len() as int) == sent
        },
        ConsensusInput::AdvanceView(cert, _) => cert.view >= start.spec_current_view() ==> {
            &&& end.spec_certs1().contains_key(cert.view)
            &&& cert.view < u64::MAX ==> end.spec_current_view() > cert.view
        },
        ConsensusInput::EpochRootCertificates { cert1, epoch: _, state_cert } => {
            &&& end.spec_state_certs() == start.spec_state_certs().insert(state_cert.epoch, state_cert)
            &&& end.spec_certs1() == filed_cert1(start, cert1)
        },
        ConsensusInput::EpochChange(message) => {
            let refused = (start.spec_current_epoch() matches Some(c) && message.cert2.epoch < c)
                || (start.spec_locked() matches Some(l) && l.view > message.cert1.view)
                || message.proposal.view != message.cert2.view;
            &&& refused ==> *end == *start && after == before
            &&& !refused ==> {
                &&& end.spec_proposals() == start.spec_proposals().insert(message.cert2.view, message.proposal)
                &&& end.spec_certs2() == start.spec_certs2().insert(message.cert2.view, message.cert2)
                &&& end.spec_certs1() == start.spec_certs1().insert(message.cert1.view, message.cert1)
            }
        },
        ConsensusInput::HeaderCreated(view, c, header) => end.spec_headers() == start.spec_headers().insert(
            (view, c),
            header,
        ),
        ConsensusInput::Proposal(sender, message) => proposal_arrived(start, end, before, after, sender, message),
        ConsensusInput::VidShare(share) => share_arrived(start, end, before, after, share),
        ConsensusInput::FetchedProposal(message) => end.spec_proposals() == (if message.data.view
            <= start.spec_last_decided_view() || start.spec_proposals().contains_key(message.data.view) {
            start.spec_proposals()
        } else {
            start.spec_proposals().insert(message.data.view, message.data)
        }),
        ConsensusInput::StateValidated(response) => end.spec_states_verified() == start.spec_states_verified().insert(
            response.view,
            response.commitment,
        ),
        ConsensusInput::StateValidationFailed(resp) => {
            let mismatch = start.spec_proposals().contains_key(resp.view)
                && start.spec_proposals()[resp.view].leaf_commit != resp.commitment;
            &&& after == before
            &&& mismatch ==> *end == *start
            &&& !mismatch ==> {
                &&& end.spec_proposals() == start.spec_proposals().remove(resp.view)
                &&& end.spec_leaves() == start.spec_leaves().remove(resp.view)
                &&& end.spec_vid_shares() == start.spec_vid_shares().remove(resp.view)
            }
        },
        ConsensusInput::Stored(stored) => Consensus::stored_recorded(start, end, stored),
        ConsensusInput::Timeout(view, epoch) => timed_out(start, end, before, after, view, epoch),
        ConsensusInput::TimeoutOneHonest(view, epoch) => timed_out(start, end, before, after, view, epoch),
        ConsensusInput::TimeoutCertificate(cert, epoch) => {
            let view = if cert.view < u64::MAX { (cert.view + 1) as u64 } else { cert.view };
            let fresh = !start.spec_timeout_certs().contains_key(view);
            &&& view < start.spec_current_view() ==> *end == *start && after == before
            &&& view >= start.spec_current_view() ==> end.spec_timeout_certs() == (if fresh {
                start.spec_timeout_certs().insert(view, cert)
            } else {
                start.spec_timeout_certs()
            })
            &&& view >= start.spec_current_view() && fresh ==> {
                &&& end.spec_current_view() >= view
                &&& after.len() >= before.len() + 3
                &&& after[before.len() as int] == ConsensusOutput::ViewChanged(view, epoch)
                &&& after[before.len() as int + 1] == ConsensusOutput::ViewTimedOut(cert.view)
                &&& after[before.len() as int + 2] == ConsensusOutput::SendTimeoutCertificate(cert, view, epoch)
            }
        },
        ConsensusInput::DrbResult(epoch, drb) => end.spec_drb_results() == start.spec_drb_results().insert(epoch, drb),
        ConsensusInput::ProposalSigned(message) => {
            let view = message.data.view;
            let due = start.spec_proposed().contains(view) && !start.spec_pending_proposals().contains_key(view)
                && view > start.spec_timeout_view();
            &&& !due ==> end.spec_pending_proposals() == start.spec_pending_proposals()
            &&& due ==> {
                &&& end.spec_pending_proposals() == start.spec_pending_proposals().insert(view, message)
                &&& after.len() > before.len()
                &&& after[before.len() as int] matches ConsensusOutput::PersistProposal(sp) && sp.data
                    == message.data && sp.signature@ == message.signature@
            }
        },
    }
}

/// Whether `c` holds the DRB result of the epoch after `p`'s and `p`, a
/// proposal in an epoch's transition, carries another one.
pub open spec fn drb_refused(c: &Consensus, p: Proposal) -> bool {
    let next = if p.epoch < u64::MAX { (p.epoch + 1) as u64 } else { p.epoch };
    &&& p.epoch > 0
    &&& spec_is_epoch_transition(p.block_header.block_number, c.spec_epoch_height())
    &&& c.spec_drb_results().contains_key(next)
    &&& p.next_drb_result != Some(c.spec_drb_results()[next])
}

/// Whether a proposal or share arriving from `start` pairs with its other
/// half, and the pair is taken in and goes on to retry votes, decisions and
/// proposals: the proposal is accepted and, in `end`, its DRB is not refused.
pub open spec fn pairing_continues(start: &Consensus, end: &Consensus, input: ConsensusInput) -> bool {
    match input {
        ConsensusInput::Proposal(_, message) => match message.data.block_header.payload_commitment {
            VidCommitment::V2(c) => start.spec_unpaired_shares().contains_key((message.data.view, c))
                && accepts_proposal(start, message.data) && !drb_refused(end, message.data),
            VidCommitment::V1(_) => false,
        },
        ConsensusInput::VidShare(share) => {
            let key = (share.view, share.payload_commitment);
            start.spec_unpaired_proposals().contains_key(key) && accepts_proposal(
                start,
                start.spec_unpaired_proposals()[key].1.data,
            ) && !drb_refused(end, start.spec_unpaired_proposals()[key].1.data)
        },
        _ => false,
    }
}

/// What a second certificate for a view above the decide floor, the first
/// one held for it, sends: the certificate, relayed unless its view is
/// decided, then a request for its proposal if that is missing and the view
/// is above the decided one. Any other sends nothing.
pub open spec fn cert2_outputs(start: &Consensus, cert: Certificate2) -> Seq<ConsensusOutput> {
    if cert.view <= start.spec_decide_floor() || start.spec_certs2().contains_key(cert.view) {
        Seq::empty()
    } else {
        (if start.spec_decided().contains(cert.view) {
            Seq::empty()
        } else {
            seq![ConsensusOutput::SendCertificate2(cert)]
        }) + (if cert.view > start.spec_last_decided_view() && !start.spec_proposals().contains_key(cert.view) {
            seq![ConsensusOutput::RequestMissingProposal { view: cert.view, leaf_commit: cert.leaf_commit }]
        } else {
            Seq::empty()
        })
    }
}

/// Whether this node, having moved to `view` of `epoch` on a timeout
/// certificate, leads it and holds the locked proposal to build on.
pub open spec fn leads_after_timeout(start: &Consensus, membership: &Membership, view: u64, epoch: u64) -> bool {
    &&& membership.spec_is_leader(view, epoch, start.spec_public_key())
    &&& start.spec_locked() is Some
    &&& start.spec_proposals().contains_key(start.spec_locked().unwrap().view)
}

/// What the handling of one input does, before any retry of votes,
/// decisions and proposals: from `start` to `end`, the outbox from `before`
/// to `after`. Each input changes only the records it files, as its arm
/// says; the lock, votes and decisions move only where an arm runs the
/// vote or decision steps.
pub open spec fn handled(start: &Consensus, end: &Consensus, before: Seq<ConsensusOutput>, after: Seq<ConsensusOutput>, membership: &Membership, input: ConsensusInput) -> bool {
    match input {
        ConsensusInput::BlockBuilt { view, epoch, payload, metadata, payload_commitment } => match payload_commitment {
            VidCommitment::V2(c) => {
                &&& start.same_except_blocks(end)
                &&& end.spec_blocks() == start.spec_blocks().insert((view, c), payload)
                &&& after.len() == before.len() + 1
                &&& after.drop_last() == before
                &&& after.last() matches ConsensusOutput::RequestVidDisperse {
                    view: v,
                    epoch: e,
                    payload: pl,
                    metadata: md,
                    payload_commitment: pc,
                } && v == view && e == epoch && pl.bytes@ == payload.bytes@ && md == metadata && pc == c
            },
            VidCommitment::V1(_) => *end == *start && after == before,
        },
        ConsensusInput::BlockReconstructed(view, c) => exists|m1: Consensus|
            #![trigger Consensus::vote1_ran(&m1, end, before, after, membership, next_view(view))]
            {
                &&& start.same_except_reconstructed(&m1)
                &&& m1.spec_reconstructed() == start.spec_reconstructed().insert((view, c))
                &&& Consensus::vote1_ran(&m1, end, before, after, membership, next_view(view))
            },
        ConsensusInput::Certificate1(cert, _) => {
            &&& start.same_except_certs1_drb(end)
            &&& end.spec_certs1() == filed_cert1(start, cert)
            &&& after == before
        },
        ConsensusInput::Certificate2(cert, _) => {
            &&& start.same_except_certs2(end)
            &&& end.spec_certs2() == (if cert.view <= start.spec_decide_floor() || start.spec_certs2().contains_key(
                cert.view,
            ) {
                start.spec_certs2()
            } else {
                start.spec_certs2().insert(cert.view, cert)
            })
            &&& after == before + cert2_outputs(start, cert)
        },
        ConsensusInput::AdvanceView(cert, epoch) => advanced_view(start, end, before, after, membership, cert, epoch),
        ConsensusInput::EpochRootCertificates { cert1, epoch: _, state_cert } => {
            &&& start.same_except_root_certs(end)
            &&& end.spec_state_certs() == start.spec_state_certs().insert(state_cert.epoch, state_cert)
            &&& end.spec_certs1() == filed_cert1(start, cert1)
            &&& after == before
        },
        ConsensusInput::EpochChange(message) => epoch_change_handled(start, end, before, after, membership, message),
        ConsensusInput::HeaderCreated(view, c, header) => {
            &&& start.same_except_headers(end)
            &&& end.spec_headers() == start.spec_headers().insert((view, c), header)
            &&& after == before
        },
        ConsensusInput::Proposal(sender, message) => {
            &&& proposal_arrived(start, end, before, after, sender, message)
            &&& start.same_except_proposal_taken(end)
            &&& forall|i: int| before.len() < i < after.len() ==> handling_output(#[trigger] after[i])
        },
        ConsensusInput::VidShare(share) => {
            &&& share_arrived(start, end, before, after, share)
            &&& start.same_except_proposal_taken(end)
            &&& forall|i: int| before.len() < i < after.len() ==> handling_output(#[trigger] after[i])
        },
        ConsensusInput::FetchedProposal(message) => fetched_applied(start, end, before, after, membership, message),
        ConsensusInput::StateValidated(response) => {
            &&& start.same_except_states_verified(end)
            &&& end.spec_states_verified() == start.spec_states_verified().insert(response.view, response.commitment)
            &&& after == before
        },
        ConsensusInput::StateValidationFailed(resp) => {
            let mismatch = start.spec_proposals().contains_key(resp.view)
                && start.spec_proposals()[resp.view].leaf_commit != resp.commitment;
            &&& after == before
            &&& mismatch ==> *end == *start
            &&& !mismatch ==> {
                &&& start.same_except_dropped_proposal(end)
                &&& end.spec_proposals() == start.spec_proposals().remove(resp.view)
                &&& end.spec_leaves() == start.spec_leaves().remove(resp.view)
                &&& end.spec_vid_shares() == start.spec_vid_shares().remove(resp.view)
            }
        },
        ConsensusInput::Stored(stored) => {
            &&& start.same_except_stored(end)
            &&& Consensus::stored_recorded(start, end, stored)
            &&& stored matches StorageOutput::HighQc(_) ==> end.spec_pending_vote1() == start.spec_pending_vote1()
                && end.spec_pending_proposals() == start.spec_pending_proposals()
            &&& end.spec_pending_vote1().dom().subset_of(start.spec_pending_vote1().dom())
            &&& end.spec_pending_vote2().dom().subset_of(start.spec_pending_vote2().dom())
            &&& end.spec_pending_proposals().dom().subset_of(start.spec_pending_proposals().dom())
            &&& after.len() >= before.len()
            &&& after.take(before.len() as int) == before
            &&& forall|i: int| before.len() <= i < after.len() ==> released(#[trigger] after[i])
        },
        ConsensusInput::Timeout(view, epoch) => timed_out(start, end, before, after, view, epoch),
        ConsensusInput::TimeoutOneHonest(view, epoch) => timed_out(start, end, before, after, view, epoch),
        ConsensusInput::TimeoutCertificate(cert, epoch) => timeout_cert_handled(start, end, before, after, membership, cert, epoch),
        ConsensusInput::VidDisperseCreated(view, c) => {
            &&& start.same_except_reconstructed(end)
            &&& end.spec_reconstructed() == start.spec_reconstructed().insert((view, c))
            &&& after == before
        },
        ConsensusInput::DrbResult(epoch, drb) => {
            &&& start.same_except_drb(end)
            &&& end.spec_drb_results() == start.spec_drb_results().insert(epoch, drb)
            &&& after == before
        },
        ConsensusInput::ProposalSigned(message) => signed_handled(start, end, before, after, message),
    }
}

/// Whether the handling of `input` from `start`, ending in `mid`, goes on
/// to retry votes, decisions and proposals.
pub open spec fn continues(start: &Consensus, mid: &Consensus, membership: &Membership, input: ConsensusInput) -> bool {
    retry_owed(start, membership, input) || pairing_continues(start, mid, input)
}

/// Whether the handling of `input` always goes on to retry votes,
/// decisions and proposals: every input but a proposal or share, a fetched
/// proposal, a failed state check and a timeout, and a timeout certificate
/// only when it is not stale and it was filed before or this node leads
/// the view it moves to, and an epoch change only when it is not refused.
pub open spec fn retry_owed(start: &Consensus, membership: &Membership, input: ConsensusInput) -> bool {
    match input {
        ConsensusInput::TimeoutCertificate(cert, epoch) => {
            let view = if cert.view < u64::MAX { (cert.view + 1) as u64 } else { cert.view };
            view >= start.spec_current_view() && (start.spec_timeout_certs().contains_key(view)
                || leads_after_timeout(start, membership, view, epoch))
        },
        ConsensusInput::EpochChange(message) => !((start.spec_current_epoch() matches Some(c) && message.cert2.epoch < c)
            || (start.spec_locked() matches Some(l) && l.view > message.cert1.view)
            || message.proposal.view != message.cert2.view),
        ConsensusInput::Proposal(..) => false,
        ConsensusInput::VidShare(_) => false,
        ConsensusInput::FetchedProposal(_) => false,
        ConsensusInput::StateValidationFailed(_) => false,
        ConsensusInput::Timeout(..) => false,
        ConsensusInput::TimeoutOneHonest(..) => false,
        _ => true,
    }
}

/// The view a retry after `input` is for: the view the node is on for a
/// DRB result, which belongs to no view, and the input's view otherwise.
pub open spec fn retry_view(start: &Consensus, input: ConsensusInput) -> u64 {
    match input {
        ConsensusInput::DrbResult(..) => start.spec_current_view(),
        _ => input.spec_view(),
    }
}

/// The state a validated proposal asks to have checked: its parent's view
/// and leaf commitment, and the size of its payload as this node's share
/// records it.
pub open spec fn state_request_for(p: Proposal, share: VidShare) -> StateRequest {
    StateRequest {
        view: p.view,
        parent_view: p.justify_qc.view,
        epoch: p.epoch,
        block: p.block_header.block_number,
        proposal: p,
        parent_commitment: p.justify_qc.leaf_commit,
        payload_size: share.payload_byte_len,
    }
}

/// What a proposal of this node, back from signing, does: one that is not
/// counted as proposed, is already held, or whose view timed out meanwhile
/// changes nothing and sends nothing; any other is held until storage
/// confirms it, and goes out to be persisted, followed by a request to
/// persist the propose action unless one was made.
pub open spec fn signed_handled(start: &Consensus, end: &Consensus, before: Seq<ConsensusOutput>, after: Seq<ConsensusOutput>, message: SignedProposal) -> bool {
    let view = message.data.view;
    let due = start.spec_proposed().contains(view) && !start.spec_pending_proposals().contains_key(view)
        && view > start.spec_timeout_view();
    let asked = start.spec_requested_proposes().contains(view);
    &&& !due ==> *end == *start && after == before
    &&& due ==> {
        &&& start.same_except_proposal_held(end)
        &&& end.spec_pending_proposals() == start.spec_pending_proposals().insert(view, message)
        &&& end.spec_requested_proposes() == start.spec_requested_proposes().insert(view)
        &&& after.len() == before.len() + if asked { 1int } else { 2int }
        &&& after.take(before.len() as int) == before
        &&& after[before.len() as int] matches ConsensusOutput::PersistProposal(sp) && sp.data == message.data
            && sp.signature@ == message.signature@
        &&& !asked ==> after.last() == ConsensusOutput::RecordAction(view, Some(message.data.epoch), ActionKind::Propose)
    }
}

/// What a timeout certificate that moves the node to view `next_view(cert.view)`
/// of `epoch` does: a stale one, or one for a view already moved to on a
/// timeout certificate, changes nothing; any other is filed, moves the view
/// and epoch, announces the view change, the timeout and the certificate,
/// and, where this node leads the new view holding the locked proposal, asks
/// for a block on it.
pub open spec fn timeout_cert_handled(start: &Consensus, end: &Consensus, before: Seq<ConsensusOutput>, after: Seq<ConsensusOutput>, membership: &Membership, cert: TimeoutCertificate, epoch: u64) -> bool {
    let view = next_view(cert.view);
    &&& view < start.spec_current_view() || start.spec_timeout_certs().contains_key(view) ==> *end == *start
        && after == before
    &&& view >= start.spec_current_view() && !start.spec_timeout_certs().contains_key(view) ==> {
        &&& start.same_except_timeout_cert(end)
        &&& end.spec_timeout_certs() == start.spec_timeout_certs().insert(view, cert)
        &&& end.spec_current_view() == view
        &&& end.spec_current_epoch() == Some(epoch)
        &&& after == before + seq![
            ConsensusOutput::ViewChanged(view, epoch),
            ConsensusOutput::ViewTimedOut(cert.view),
            ConsensusOutput::SendTimeoutCertificate(cert, view, epoch),
        ] + if leads_after_timeout(start, membership, view, epoch) {
            seq![
                ConsensusOutput::RequestBlockAndHeader(
                    BlockAndHeaderRequest {
                        view,
                        epoch,
                        parent_proposal: start.spec_proposals()[start.spec_locked().unwrap().view],
                    },
                ),
            ]
        } else {
            Seq::empty()
        }
    }
}

/// What an epoch-change message does: one refused (see [`retry_owed`])
/// changes nothing; any other moves the node into the first view of the
/// next epoch, announces it, asks for a block there if this node leads it,
/// and files the boundary proposal and both certificates.
pub open spec fn epoch_change_handled(start: &Consensus, end: &Consensus, before: Seq<ConsensusOutput>, after: Seq<ConsensusOutput>, membership: &Membership, message: EpochChangeMessage) -> bool {
    let refused = (start.spec_current_epoch() matches Some(c) && message.cert2.epoch < c)
        || (start.spec_locked() matches Some(l) && l.view > message.cert1.view)
        || message.proposal.view != message.cert2.view;
    let nv = next_view(message.cert2.view);
    let ne = sat_inc(message.cert2.epoch);
    &&& refused ==> *end == *start && after == before
    &&& !refused ==> {
        &&& start.same_except_epoch_change(end)
        &&& end.spec_current_view() == max_spec(start.spec_current_view(), nv)
        &&& end.spec_current_epoch() == Some(ne)
        &&& end.spec_proposals() == start.spec_proposals().insert(message.cert2.view, message.proposal)
        &&& end.spec_certs2() == start.spec_certs2().insert(message.cert2.view, message.cert2)
        &&& end.spec_certs1() == start.spec_certs1().insert(message.cert1.view, message.cert1)
        &&& after == before.push(ConsensusOutput::ViewChanged(nv, ne)) + if membership.spec_is_leader(
            nv,
            ne,
            start.spec_public_key(),
        ) {
            seq![
                ConsensusOutput::RequestBlockAndHeader(
                    BlockAndHeaderRequest { view: nv, epoch: ne, parent_proposal: message.proposal },
                ),
            ]
        } else {
            Seq::empty()
        }
    }
}

/// What a certificate that lets a node which fell behind advance does: a
/// stale one changes nothing; any other is filed unless its view has one,
/// then the lock update and second vote of its view run as
/// [`Consensus::vote2_ran`] says, and the view moves on past it if it has
/// not yet, announced.
pub open spec fn advanced_view(start: &Consensus, end: &Consensus, before: Seq<ConsensusOutput>, after: Seq<ConsensusOutput>, membership: &Membership, cert: Certificate1, epoch: u64) -> bool {
    &&& cert.view < start.spec_current_view() ==> *end == *start && after == before
    &&& cert.view >= start.spec_current_view() ==> exists|m1: Consensus, m2: Consensus, o2: Seq<ConsensusOutput>|
        #![trigger Consensus::vote2_ran(&m1, &m2, before, o2, membership, cert.view)]
        {
            &&& start.same_except_certs1_drb(&m1)
            &&& m1.spec_certs1() == (if start.spec_certs1().contains_key(cert.view) {
                start.spec_certs1()
            } else {
                start.spec_certs1().insert(cert.view, cert)
            })
            &&& Consensus::vote2_ran(&m1, &m2, before, o2, membership, cert.view)
            &&& next_view(cert.view) > m2.spec_current_view() ==> {
                &&& m2.same_except_lock_view_epoch(end)
                &&& end.spec_locked() == m2.spec_locked()
                &&& end.spec_current_view() == next_view(cert.view)
                &&& end.spec_current_epoch() == Some(epoch)
                &&& after == o2.push(ConsensusOutput::ViewChanged(next_view(cert.view), epoch))
            }
            &&& next_view(cert.view) <= m2.spec_current_view() ==> *end == m2 && after == o2
        }
}

/// What asking for the parent of `p` sends: a request for it, if it is above
/// the decided view and not held.
pub open spec fn parent_request(c: &Consensus, p: Proposal) -> Seq<ConsensusOutput> {
    if p.justify_qc.view > c.spec_last_decided_view() && !c.spec_proposals().contains_key(p.justify_qc.view) {
        seq![ConsensusOutput::RequestMissingProposal { view: p.justify_qc.view, leaf_commit: p.justify_qc.leaf_commit }]
    } else {
        Seq::empty()
    }
}

/// What a fetched proposal does before anything is retried: one at or below
/// the decided view, or for a view with a proposal, changes nothing; any
/// other is filed with its leaf and signed form, its parent asked for if
/// missing.
pub open spec fn fetched_handled(start: &Consensus, end: &Consensus, before: Seq<ConsensusOutput>, after: Seq<ConsensusOutput>, message: SignedProposal) -> bool {
    let p = message.data;
    &&& p.view <= start.spec_last_decided_view() || start.spec_proposals().contains_key(p.view) ==> *end == *start
        && after == before
    &&& !(p.view <= start.spec_last_decided_view() || start.spec_proposals().contains_key(p.view)) ==> {
        &&& start.same_except_fetched(end)
        &&& end.spec_proposals() == start.spec_proposals().insert(p.view, p)
        &&& after == before + parent_request(start, p)
    }
}

/// Whether `o` is something the handling of a proposal sends, none of them a
/// vote, a decision or a proposal: a request for a missing parent, for a DRB
/// result, for a state check or for a block, or the announcement that the
/// proposal was validated.
pub open spec fn handling_output(o: ConsensusOutput) -> bool {
    ||| o is RequestMissingProposal
    ||| o is RequestDrbResult
    ||| o is RequestState
    ||| o is ProposalValidated
    ||| o is RequestBlockAndHeader
}

/// The first vote, the lock update and second vote, and the decision of
/// `view`, each as its function says, from `start` to `end`.
pub open spec fn voted_and_decided(start: &Consensus, end: &Consensus, before: Seq<ConsensusOutput>, after: Seq<ConsensusOutput>, membership: &Membership, view: u64) -> bool {
    exists|s1: Consensus, s2: Consensus, o1: Seq<ConsensusOutput>, o2: Seq<ConsensusOutput>|
        #![trigger Consensus::vote1_ran(start, &s1, before, o1, membership, view), Consensus::vote2_ran(&s1, &s2, o1, o2, membership, view)]
        {
            &&& Consensus::vote1_ran(start, &s1, before, o1, membership, view)
            &&& Consensus::vote2_ran(&s1, &s2, o1, o2, membership, view)
            &&& Consensus::decide_ran(&s2, end, o2, after, view)
        }
}

/// `vs` lists, in increasing order, the views above `view` whose proposal
/// in `c` has its justify QC at `view`.
pub open spec fn lists_extending(c: &Consensus, view: u64, vs: Seq<u64>) -> bool {
    &&& forall|a: int, b: int| 0 <= a < b < vs.len() ==> vs[a] < vs[b]
    &&& forall|v: u64| vs.contains(v) <==> v > view && c.spec_proposals().contains_key(v)
        && c.spec_proposals()[v].justify_qc.view == view
}

/// The states `ss` and outboxes `os` run through voting and deciding each
/// of `vs` in turn.
pub open spec fn chained(ss: Seq<Consensus>, os: Seq<Seq<ConsensusOutput>>, membership: &Membership, vs: Seq<u64>) -> bool {
    &&& ss.len() == vs.len() + 1
    &&& os.len() == vs.len() + 1
    &&& forall|i: int| 0 <= i < vs.len() ==> voted_and_decided(&ss[i], &ss[i + 1], os[i], os[i + 1], membership, #[trigger] vs[i])
}

/// What a fetched proposal does, as [`Consensus::apply`] takes it: it is
/// handled as [`fetched_handled`] says, its view decided where it can be,
/// then each view whose proposal extends it is voted and decided in
/// increasing order, and the view after it proposed in.
pub open spec fn fetched_applied(start: &Consensus, end: &Consensus, before: Seq<ConsensusOutput>, after: Seq<ConsensusOutput>, membership: &Membership, message: SignedProposal) -> bool {
    let view = message.data.view;
    exists|m1: Consensus, o1: Seq<ConsensusOutput>, m2: Consensus, o2: Seq<ConsensusOutput>, vs: Seq<u64>, ss: Seq<Consensus>, os: Seq<Seq<ConsensusOutput>>|
        #![trigger fetched_handled(start, &m1, before, o1, message), Consensus::decide_ran(&m1, &m2, o1, o2, view), chained(ss, os, membership, vs)]
        {
            &&& fetched_handled(start, &m1, before, o1, message)
            &&& Consensus::decide_ran(&m1, &m2, o1, o2, view)
            &&& lists_extending(&m2, view, vs)
            &&& chained(ss, os, membership, vs)
            &&& ss[0] == m2
            &&& os[0] == o2
            &&& Consensus::propose_ran(&ss.last(), end, os.last(), after, membership, next_view(view))
        }
}

/// One more view voted and decided extends a chain.
proof fn lemma_chained_push(ss: Seq<Consensus>, os: Seq<Seq<ConsensusOutput>>, membership: &Membership, vs: Seq<u64>, next: Consensus, out: Seq<ConsensusOutput>, v: u64)
    requires
        chained(ss, os, membership, vs),
        voted_and_decided(&ss.last(), &next, os.last(), out, membership, v),
    ensures
        chained(ss.push(next), os.push(out), membership, vs.push(v)),
{
    let s2 = ss.push(next);
    let o2 = os.push(out);
    let v2 = vs.push(v);
    assert forall|i: int| 0 <= i < v2.len() implies voted_and_decided(&s2[i], &s2[i + 1], o2[i], o2[i + 1], membership, #[trigger] v2[i]) by {
        if i < vs.len() {
            assert(v2[i] == vs[i] && s2[i] == ss[i] && s2[i + 1] == ss[i + 1] && o2[i] == os[i] && o2[i + 1] == os[i + 1]);
        } else {
            assert(s2[i] == ss.last() && o2[i] == os.last());
        }
    }
}

/// What a proposal arriving from `sender` does: one whose payload was
/// dispersed in the older scheme changes nothing; one whose share is parked
/// is paired with it, the pairing announced before any other output, and
/// nothing else follows if the proposal is refused; any other is parked
/// under its view and payload commitment, and nothing else changes.
pub open spec fn proposal_arrived(start: &Consensus, end: &Consensus, before: Seq<ConsensusOutput>, after: Seq<ConsensusOutput>, sender: u64, message: SignedProposal) -> bool {
    match message.data.block_header.payload_commitment {
        VidCommitment::V1(_) => *end == *start && after == before,
        VidCommitment::V2(c) => {
            let key = (message.data.view, c);
            if start.spec_unpaired_shares().contains_key(key) {
                &&& after.len() > before.len()
                &&& after[before.len() as int] matches ConsensusOutput::ProposalPaired { proposal, vid_share }
                    && proposal.data == message.data && vid_share == start.spec_unpaired_shares()[key]
                &&& !accepts_proposal(start, message.data) ==> refused_after_pairing(start, end, before, after)
            } else {
                &&& start.same_except_unpaired_proposals(end)
                &&& end.spec_unpaired_proposals() == start.spec_unpaired_proposals().insert(key, (sender, message))
                &&& after == before
            }
        },
    }
}

/// A pairing whose proposal is refused (see [`accepts_proposal`]): the
/// pairing is the only output, and the proposals, shares, lock and view
/// stay as they were.
pub open spec fn refused_after_pairing(start: &Consensus, end: &Consensus, before: Seq<ConsensusOutput>, after: Seq<ConsensusOutput>) -> bool {
    &&& after.len() == before.len() + 1
    &&& end.spec_proposals() == start.spec_proposals()
    &&& end.spec_vid_shares() == start.spec_vid_shares()
    &&& end.spec_locked() == start.spec_locked()
    &&& end.spec_current_view() == start.spec_current_view()
}

/// What this node's share arriving does: one whose proposal is parked is
/// paired with it, the pairing announced before any other output, and
/// nothing else follows if the proposal is refused; any other is parked
/// under its view and payload commitment, and nothing else changes.
pub open spec fn share_arrived(start: &Consensus, end: &Consensus, before: Seq<ConsensusOutput>, after: Seq<ConsensusOutput>, share: VidShare) -> bool {
    let key = (share.view, share.payload_commitment);
    if start.spec_unpaired_proposals().contains_key(key) {
        &&& after.len() > before.len()
        &&& after[before.len() as int] matches ConsensusOutput::ProposalPaired { proposal, vid_share }
            && proposal.data == start.spec_unpaired_proposals()[key].1.data && vid_share == share
        &&& !accepts_proposal(start, start.spec_unpaired_proposals()[key].1.data) ==> refused_after_pairing(start, end, before, after)
    } else {
        &&& start.same_except_unpaired_shares(end)
        &&& end.spec_unpaired_shares() == start.spec_unpaired_shares().insert(key, share)
        &&& after == before
    }
}

/// A pairing reads only the proposals, shares and lock it started from.
proof fn lemma_paired_frame(a: &Consensus, b: &Consensus, end: &Consensus, before: Seq<ConsensusOutput>, after: Seq<ConsensusOutput>, p: Proposal, vs: VidShare, r: Protocol)
    requires
        paired(a, end, before, after, p, vs, r),
        a.spec_proposals() == b.spec_proposals(),
        a.spec_vid_shares() == b.spec_vid_shares(),
        a.spec_locked() == b.spec_locked(),
        a.spec_current_view() == b.spec_current_view(),
        b.same_except_proposal_taken(a),
    ensures
        paired(b, end, before, after, p, vs, r),
{
    assert(accepts_proposal(a, p) == accepts_proposal(b, p));
}

/// What a timeout of `view` in `epoch` does: a stale one (before the current
/// view) changes nothing; otherwise the timeout barrier rises to `view`,
/// nothing else changes, and exactly one timeout vote goes out, carrying the
/// highest certificate held.
pub open spec fn timed_out(start: &Consensus, end: &Consensus, before: Seq<ConsensusOutput>, after: Seq<ConsensusOutput>, view: u64, epoch: u64) -> bool {
    &&& view < start.spec_current_view() ==> *end == *start && after == before
    &&& view >= start.spec_current_view() ==> {
        &&& end.spec_timeout_view() == max_spec(start.spec_timeout_view(), view)
        &&& start.same_except_timeout_view(end)
        &&& after == before.push(
            ConsensusOutput::SendTimeoutVote(TimeoutVote { view, epoch: Some(epoch) }, start.spec_catchup_evidence()),
        )
    }
}

impl ConsensusInput {
    /// The view an input is processed for. A certificate that advances the
    /// node, or a timeout certificate, is processed for the view after the
    /// one it certifies; a DRB result belongs to no view.
    pub open spec fn spec_view(&self) -> u64 {
        match self {
            ConsensusInput::BlockBuilt { view, .. } => *view,
            ConsensusInput::BlockReconstructed(view, _) => *view,
            ConsensusInput::Certificate1(cert, _) => cert.view,
            ConsensusInput::Certificate2(cert, _) => cert.view,
            ConsensusInput::AdvanceView(cert, _) => if cert.view < u64::MAX { (cert.view + 1) as u64 } else { cert.view },
            ConsensusInput::EpochRootCertificates { cert1, .. } => cert1.view,
            ConsensusInput::EpochChange(m) => m.cert1.view,
            ConsensusInput::HeaderCreated(view, ..) => *view,
            ConsensusInput::Proposal(_, m) => m.data.view,
            ConsensusInput::VidShare(share) => share.view,
            ConsensusInput::FetchedProposal(m) => m.data.view,
            ConsensusInput::StateValidated(r) => r.view,
            ConsensusInput::StateValidationFailed(r) => r.view,
            ConsensusInput::Stored(stored) => stored.spec_view(),
            ConsensusInput::Timeout(view, _) => *view,
            ConsensusInput::TimeoutCertificate(cert, _) => if cert.view < u64::MAX { (cert.view + 1) as u64 } else { cert.view },
            ConsensusInput::TimeoutOneHonest(view, _) => *view,
            ConsensusInput::VidDisperseCreated(view, _) => *view,
            ConsensusInput::DrbResult(..) => 0,
            ConsensusInput::ProposalSigned(m) => m.data.view,
        }
    }

    pub fn view_number(&self) -> (r: u64)
        ensures
            r == self.spec_view(),
    {
        match self {
            ConsensusInput::BlockBuilt { view, .. } => *view,
            ConsensusInput::BlockReconstructed(view, _) => *view,
            ConsensusInput::Certificate1(cert, _) => cert.view,
            ConsensusInput::Certificate2(cert, _) => cert.view,
            ConsensusInput::AdvanceView(cert, _) => cert.view.saturating_add(1),
            ConsensusInput::EpochRootCertificates { cert1, .. } => cert1.view,
            ConsensusInput::EpochChange(m) => m.cert1.view,
            ConsensusInput::HeaderCreated(view, ..) => *view,
            ConsensusInput::Proposal(_, m) => m.data.view,
            ConsensusInput::VidShare(share) => share.view,
            ConsensusInput::FetchedProposal(m) => m.data.view,
            ConsensusInput::StateValidated(r) => r.view,
            ConsensusInput::StateValidationFailed(r) => r.view,
            ConsensusInput::Stored(stored) => stored.view_number(),
            ConsensusInput::Timeout(view, _) => *view,
            ConsensusInput::TimeoutCertificate(cert, _) => cert.view.saturating_add(1),
            ConsensusInput::TimeoutOneHonest(view, _) => *view,
            ConsensusInput::VidDisperseCreated(view, _) => *view,
            ConsensusInput::DrbResult(..) => 0,
            ConsensusInput::ProposalSigned(m) => m.data.view,
        }
    }
}

impl Consensus {
    /// The views above `view` whose proposals extend the one at `view`.
    fn views_extending(&self, view: u64) -> (r: Vec<u64>)
        ensures
            forall|a: int, b: int| 0 <= a < b < r@.len() ==> r@[a] < r@[b],
            forall|v: u64| r@.contains(v) <==> v > view && self.spec_proposals().contains_key(v)
                && self.spec_proposals()[v].justify_qc.view == view,
    {
        let keys = crate::collections::sorted_keys(&self.proposals);
        let mut out: Vec<u64> = Vec::new();
        let mut i: usize = 0;
        while i < keys.len()
            invariant
                0 <= i <= keys.len(),
                forall|a: int, b: int| 0 <= a < b < keys@.len() ==> keys@[a] < keys@[b],
                forall|k: u64| keys@.contains(k) <==> self.spec_proposals().contains_key(k),
                forall|a: int, b: int| 0 <= a < b < out@.len() ==> out@[a] < out@[b],
                forall|a: int| 0 <= a < out@.len() ==> exists|t: int| 0 <= t < i && keys@[t] == #[trigger] out@[a],
                forall|v: u64| out@.contains(v) <==> (exists|t: int| 0 <= t < i && keys@[t] == v) && v > view
                    && self.spec_proposals()[v].justify_qc.view == view,
            decreases keys.len() - i,
        {
            let k = keys[i];
            proof { assert(keys@.contains(k)); }
            let extends = match self.proposals.get(&k) {
                Some(p) => k > view && p.justify_qc.view == view,
                None => false,
            };
            let ghost before = out@;
            if extends {
                proof {
                    assert forall|a: int| 0 <= a < before.len() implies before[a] < k by {
                        let t = choose|t: int| 0 <= t < i && keys@[t] == before[a];
                        assert(keys@[t] < keys@[i as int]);
                    }
                }
                out.push(k);
            }
            proof {
                assert forall|a: int| 0 <= a < out@.len() implies exists|t: int| 0 <= t < i + 1 && keys@[t] == #[trigger] out@[a] by {
                    if a < before.len() {
                        assert(out@[a] == before[a]);
                        let t = choose|t: int| 0 <= t < i && keys@[t] == before[a];
                        assert(0 <= t < i + 1 && keys@[t] == out@[a]);
                    } else {
                        assert(keys@[i as int] == out@[a]);
                    }
                }
                assert forall|v: u64| out@.contains(v) <==> (exists|t: int| 0 <= t < i + 1 && keys@[t] == v) && v > view
                    && self.spec_proposals()[v].justify_qc.view == view by {
                    if out@.contains(v) {
                        let a = choose|a: int| 0 <= a < out@.len() && out@[a] == v;
                        if a < before.len() {
                            assert(before.contains(v));
                        }
                    }
                    if (exists|t: int| 0 <= t < i + 1 && keys@[t] == v) && v > view
                        && self.spec_proposals()[v].justify_qc.view == view {
                        let t = choose|t: int| 0 <= t < i + 1 && keys@[t] == v;
                        if t < i {
                            assert(before.contains(v));
                            let a = choose|a: int| 0 <= a < before.len() && before[a] == v;
                            assert(out@[a] == v);
                        } else {
                            assert(out@[out@.len() - 1] == v);
                        }
                    }
                }
            }
            i += 1;
        }
        proof {
            assert forall|v: u64| out@.contains(v) <==> v > view && self.spec_proposals().contains_key(v)
                && self.spec_proposals()[v].justify_qc.view == view by {
                if self.spec_proposals().contains_key(v) {
                    assert(keys@.contains(v));
                }
                if out@.contains(v) {
                    let t = choose|t: int| 0 <= t < i && keys@[t] == v;
                    assert(keys@.contains(v));
                }
            }
        }
        out
    }

    /// Retry, for `view`, everything an input may have unblocked: both votes,
    /// a decision, and proposals for it and for the view after.
    fn retry_all(&mut self, view: u64, membership: &Membership, outbox: &mut Outbox<ConsensusOutput>)
        ensures
            Self::step(old(self), final(self), old(outbox)@, final(outbox)@),
            old(self).retry_keeps(final(self)),
            Self::retried_all(old(self), final(self), old(outbox)@, final(outbox)@, membership, view),
    {
        proof { lemma_step_refl(self, outbox@); }
        let ghost m1 = *self;
        let ghost o1 = outbox@;
        self.maybe_vote_1(view, membership, outbox);
        proof { lemma_step_trans(old(self), &m1, self, old(outbox)@, o1, outbox@); }
        let ghost m2 = *self;
        let ghost o2 = outbox@;
        self.maybe_vote_2_and_update_lock(view, membership, outbox);
        proof { lemma_step_trans(old(self), &m2, self, old(outbox)@, o2, outbox@); }
        let ghost m3 = *self;
        let ghost o3 = outbox@;
        self.maybe_decide(view, outbox);
        proof { lemma_step_trans(old(self), &m3, self, old(outbox)@, o3, outbox@); }
        let ghost m4 = *self;
        let ghost o4 = outbox@;
        self.maybe_propose(view, membership, outbox);
        proof { lemma_step_trans(old(self), &m4, self, old(outbox)@, o4, outbox@); }
        // An event of this view or of the one before can let a proposal go.
        let ghost m5 = *self;
        let ghost o5 = outbox@;
        self.maybe_propose(view.saturating_add(1), membership, outbox);
        proof {
            lemma_step_trans(old(self), &m5, self, old(outbox)@, o5, outbox@);
            assert(old(self).retry_keeps(&m2));
            assert(m2.retry_keeps(&m3));
            assert(m3.retry_keeps(&m4));
            assert(m4.retry_keeps(&m5));
            assert(m5.retry_keeps(self));
            assert(Self::vote1_ran(&m1, &m2, o1, o2, membership, view));
            assert(Self::vote2_ran(&m2, &m3, o2, o3, membership, view));
            assert(Self::decide_ran(&m3, &m4, o3, o4, view));
            assert(Self::propose_ran(&m4, &m5, o4, o5, membership, view));
            assert(Self::propose_ran(&m5, self, o5, outbox@, membership, if view < u64::MAX { (view + 1) as u64 } else { view }));
        }
    }

    /// Retrying `view` as [`Consensus::retry_all`] does: the first vote, the
    /// lock update and second vote, the decision and the proposal of `view`,
    /// then the proposal of the view after, each from where the one before
    /// left the node and its outbox.
    pub open spec fn retried_all(start: &Self, end: &Self, before: Seq<ConsensusOutput>, after: Seq<ConsensusOutput>, membership: &Membership, view: u64) -> bool {
        exists|s1: Consensus, s2: Consensus, s3: Consensus, s4: Consensus, o1: Seq<ConsensusOutput>, o2: Seq<ConsensusOutput>, o3: Seq<ConsensusOutput>, o4: Seq<ConsensusOutput>|
            #![trigger Self::vote1_ran(start, &s1, before, o1, membership, view), Self::vote2_ran(&s1, &s2, o1, o2, membership, view),
                Self::decide_ran(&s2, &s3, o2, o3, view), Self::propose_ran(&s3, &s4, o3, o4, membership, view)]
            {
                &&& Self::vote1_ran(start, &s1, before, o1, membership, view)
                &&& Self::vote2_ran(&s1, &s2, o1, o2, membership, view)
                &&& Self::decide_ran(&s2, &s3, o2, o3, view)
                &&& Self::propose_ran(&s3, &s4, o3, o4, membership, view)
                &&& Self::propose_ran(&s4, end, o4, after, membership, if view < u64::MAX { (view + 1) as u64 } else { view })
            }
    }

    /// A fetched proposal may make itself decidable, and unblock the views
    /// whose proposals extend it.
    fn apply_fetched_proposal(&mut self, message: SignedProposal, membership: &Membership, outbox: &mut Outbox<ConsensusOutput>)
        ensures
            Self::step(old(self), final(self), old(outbox)@, final(outbox)@),
            fetched_applied(old(self), final(self), old(outbox)@, final(outbox)@, membership, message),
            final(self).spec_proposals() == (if message.data.view <= old(self).spec_last_decided_view()
                || old(self).spec_proposals().contains_key(message.data.view) {
                old(self).spec_proposals()
            } else {
                old(self).spec_proposals().insert(message.data.view, message.data)
            }),
    {
        let view = message.data.view;
        let ghost msg = message;
        self.handle_fetched_proposal(message, outbox);
        let ghost m1 = *self;
        let ghost o1 = outbox@;
        self.maybe_decide(view, outbox);
        proof {
            lemma_step_trans(old(self), &m1, self, old(outbox)@, o1, outbox@);
            assert(m1.retry_keeps(self));
        }
        let ghost m2 = *self;
        let ghost o2 = outbox@;
        let extending = self.views_extending(view);
        let ghost mut ss: Seq<Consensus> = seq![m2];
        let ghost mut os: Seq<Seq<ConsensusOutput>> = seq![o2];
        proof {
            assert(chained(ss, os, membership, extending@.subrange(0, 0)));
        }
        let mut i: usize = 0;
        while i < extending.len()
            invariant
                0 <= i <= extending.len(),
                Self::step(old(self), self, old(outbox)@, outbox@),
                m1.retry_keeps(self),
                chained(ss, os, membership, extending@.subrange(0, i as int)),
                ss[0] == m2,
                os[0] == o2,
                ss.last() == *self,
                os.last() == outbox@,
            decreases extending.len() - i,
        {
            let v = extending[i];
            let ghost a = *self;
            let ghost oa = outbox@;
            self.maybe_vote_1(v, membership, outbox);
            proof { lemma_step_trans(old(self), &a, self, old(outbox)@, oa, outbox@); }
            let ghost b = *self;
            let ghost ob = outbox@;
            self.maybe_vote_2_and_update_lock(v, membership, outbox);
            proof { lemma_step_trans(old(self), &b, self, old(outbox)@, ob, outbox@); }
            let ghost c = *self;
            let ghost oc = outbox@;
            self.maybe_decide(v, outbox);
            proof {
                lemma_step_trans(old(self), &c, self, old(outbox)@, oc, outbox@);
                assert(m1.retry_keeps(&a));
                assert(a.retry_keeps(&b));
                assert(b.retry_keeps(&c));
                assert(c.retry_keeps(self));
                assert(Consensus::vote1_ran(&a, &b, oa, ob, membership, v));
                assert(Consensus::vote2_ran(&b, &c, ob, oc, membership, v));
                assert(Consensus::decide_ran(&c, self, oc, outbox@, v));
                assert(voted_and_decided(&a, self, oa, outbox@, membership, v));
                lemma_chained_push(ss, os, membership, extending@.subrange(0, i as int), *self, outbox@, v);
                assert(extending@.subrange(0, i as int).push(v) =~= extending@.subrange(0, i as int + 1));
                ss = ss.push(*self);
                os = os.push(outbox@);
            }
            i += 1;
        }
        let ghost m5 = *self;
        let ghost o5 = outbox@;
        self.maybe_propose(view.saturating_add(1), membership, outbox);
        proof {
            lemma_step_trans(old(self), &m5, self, old(outbox)@, o5, outbox@);
            assert(m5.retry_keeps(self));
            assert(extending@.subrange(0, extending.len() as int) =~= extending@);
            assert(Consensus::propose_ran(&ss.last(), self, os.last(), outbox@, membership, next_view(view)));
            assert(fetched_handled(old(self), &m1, old(outbox)@, o1, msg));
        }
    }
}

impl Consensus {
    /// Apply one input and append the outputs it calls for to `outbox`.
    ///
    /// Every run is a [`Consensus::step`]: views, the timeout barrier, the
    /// lock, the decided view and the persistence watermark only move
    /// forward; the views voted in, proposed in and decided only grow;
    /// well-formedness is kept; and every output appended is owed what
    /// [`Consensus::output_ok`] says (a vote at most once per view and only
    /// past the timeout barrier, a second vote only on a persisted lock, a
    /// decision only of a certified chain of undecided leaves).
    pub fn apply(&mut self, input: ConsensusInput, membership: &Membership, outbox: &mut Outbox<ConsensusOutput>)
        ensures
            Self::step(old(self), final(self), old(outbox)@, final(outbox)@),
            applied(old(self), final(self), old(outbox)@, final(outbox)@, input),
            exists|mid: Consensus, omid: Seq<ConsensusOutput>|
                #![trigger handled(old(self), &mid, old(outbox)@, omid, membership, input)]
                {
                    &&& Self::step(old(self), &mid, old(outbox)@, omid)
                    &&& handled(old(self), &mid, old(outbox)@, omid, membership, input)
                    &&& continues(old(self), &mid, membership, input) ==> Consensus::retried_all(
                        &mid,
                        final(self),
                        omid,
                        final(outbox)@,
                        membership,
                        retry_view(old(self), input),
                    )
                    &&& !continues(old(self), &mid, membership, input) ==> *final(self) == mid && final(outbox)@ == omid
                },
    {
        proof { lemma_step_refl(self, outbox@); }
        // A DRB result belongs to no view; the retries target the view the
        // node is on, where a leader may be waiting on it.
        let view = match &input {
            ConsensusInput::DrbResult(..) => self.current_view,
            _ => input.view_number(),
        };
        let ghost m = *self;
        let ghost o = outbox@;
        let ghost owed = retry_owed(self, membership, input);
        let ghost rv = retry_view(self, input);
        proof { assert(view == rv); }
        let proto = match input {
            ConsensusInput::Proposal(sender, message) => {
                let r = self.pair_proposal(sender, message, membership, outbox);
                proof { lemma_step_trans(old(self), &m, self, old(outbox)@, o, outbox@); }
                proof {
                    let fin = *self;
                    assert(handled(old(self), &fin, old(outbox)@, outbox@, membership, input));
                }
                r
            },
            ConsensusInput::VidShare(share) => {
                let r = self.pair_vid_share(share, membership, outbox);
                proof { lemma_step_trans(old(self), &m, self, old(outbox)@, o, outbox@); }
                proof {
                    let fin = *self;
                    assert(handled(old(self), &fin, old(outbox)@, outbox@, membership, input));
                }
                r
            },
            ConsensusInput::FetchedProposal(message) => {
                self.apply_fetched_proposal(message, membership, outbox);
                proof {
                    let fin = *self;
                    assert(handled(old(self), &fin, old(outbox)@, outbox@, membership, input));
                }
                return;
            },
            ConsensusInput::Certificate1(cert, _) => {
                let r = self.handle_certificate1(cert);
                proof {
                    if m.wf() {
                        lemma_wf_frame(&m, self);
                    }
                    lemma_mutate(old(self), &m, self, old(outbox)@, outbox@);
                }
                proof {
                    let fin = *self;
                    assert(handled(old(self), &fin, old(outbox)@, outbox@, membership, input));
                }
                r
            },
            ConsensusInput::Certificate2(cert, _) => {
                let r = self.handle_certificate2(cert, outbox);
                proof {
                    lemma_step_trans(old(self), &m, self, old(outbox)@, o, outbox@);
                    assert(outbox@.subrange(o.len() as int, outbox@.len() as int) =~= cert2_outputs(old(self), cert));
                }
                proof {
                    let fin = *self;
                    assert(handled(old(self), &fin, old(outbox)@, outbox@, membership, input));
                }
                r
            },
            ConsensusInput::AdvanceView(cert, epoch) => {
                let r = self.handle_advance_view(cert, epoch, membership, outbox);
                proof { lemma_step_trans(old(self), &m, self, old(outbox)@, o, outbox@); }
                proof {
                    let fin = *self;
                    assert(handled(old(self), &fin, old(outbox)@, outbox@, membership, input));
                }
                r
            },
            ConsensusInput::EpochRootCertificates { cert1, epoch: _, state_cert } => {
                // The state certificate goes first, so the first certificate's
                // handling and a leader building on it find it.
                self.state_certs.insert(state_cert.epoch, state_cert);
                proof {
                    if m.wf() {
                        lemma_wf_frame(&m, self);
                    }
                    lemma_mutate(old(self), &m, self, old(outbox)@, outbox@);
                }
                let ghost m1 = *self;
                let r = self.handle_certificate1(cert1);
                proof {
                    if m1.wf() {
                        lemma_wf_frame(&m1, self);
                    }
                    lemma_mutate(old(self), &m1, self, old(outbox)@, outbox@);
                }
                proof {
                    let fin = *self;
                    assert(handled(old(self), &fin, old(outbox)@, outbox@, membership, input));
                }
                r
            },
            ConsensusInput::TimeoutCertificate(cert, epoch) => {
                let r = self.handle_timeout_certificate(cert, epoch, membership, outbox);
                proof { lemma_step_trans(old(self), &m, self, old(outbox)@, o, outbox@); assert(owed ==> r is Continue); }
                proof {
                    let fin = *self;
                    assert(handled(old(self), &fin, old(outbox)@, outbox@, membership, input));
                }
                r
            },
            ConsensusInput::BlockReconstructed(v, commitment) => {
                self.blocks_reconstructed.insert((v, commitment));
                proof {
                    if m.wf() {
                        lemma_wf_frame(&m, self);
                    }
                    lemma_mutate(old(self), &m, self, old(outbox)@, outbox@);
                }
                // The child's first vote may have waited on this block.
                let ghost m1 = *self;
                let ghost o1 = outbox@;
                self.maybe_vote_1(v.saturating_add(1), membership, outbox);
                proof { lemma_step_trans(old(self), &m1, self, old(outbox)@, o1, outbox@); }
                proof {
                    let fin = *self;
                    assert(old(self).same_except_reconstructed(&m1));
                    assert(Consensus::vote1_ran(&m1, &fin, old(outbox)@, outbox@, membership, next_view(v)));
                    assert(handled(old(self), &fin, old(outbox)@, outbox@, membership, input));
                }
                Protocol::Continue
            },
            ConsensusInput::StateValidated(response) => {
                self.states_verified.insert(response.view, response.commitment);
                proof {
                    if m.wf() {
                        lemma_wf_frame(&m, self);
                    }
                    lemma_mutate(old(self), &m, self, old(outbox)@, outbox@);
                }
                proof {
                    let fin = *self;
                    assert(handled(old(self), &fin, old(outbox)@, outbox@, membership, input));
                }
                Protocol::Continue
            },
            ConsensusInput::HeaderCreated(v, commitment, header) => {
                self.headers.insert((v, commitment), header);
                proof {
                    if m.wf() {
                        lemma_wf_frame(&m, self);
                    }
                    lemma_mutate(old(self), &m, self, old(outbox)@, outbox@);
                }
                proof {
                    let fin = *self;
                    assert(handled(old(self), &fin, old(outbox)@, outbox@, membership, input));
                }
                Protocol::Continue
            },
            ConsensusInput::Stored(stored) => {
                self.handle_stored(stored, outbox);
                proof { lemma_step_trans(old(self), &m, self, old(outbox)@, o, outbox@); }
                proof {
                    let fin = *self;
                    assert(handled(old(self), &fin, old(outbox)@, outbox@, membership, input));
                }
                Protocol::Continue
            },
            ConsensusInput::StateValidationFailed(response) => {
                let v = response.view;
                let mismatch = match self.proposals.get(&v) {
                    Some(p) => p.leaf_commit != response.commitment,
                    None => false,
                };
                if mismatch {
                    proof {
                        let fin = *self;
                        assert(handled(old(self), &fin, old(outbox)@, outbox@, membership, input));
                    }
                    return;
                }
                self.proposals.remove(&v);
                self.leaves.remove(&v);
                self.vid_shares.remove(&v);
                proof {
                    if m.wf() {
                        lemma_wf_frame(&m, self);
                    }
                    lemma_mutate(old(self), &m, self, old(outbox)@, outbox@);
                    assert(self.spec_leaves() =~= old(self).spec_leaves().remove(v));
                    let fin = *self;
                    assert(handled(old(self), &fin, old(outbox)@, outbox@, membership, input));
                }
                return;
            },
            ConsensusInput::Timeout(v, epoch) => {
                let r = self.handle_timeout(v, epoch, outbox);
                proof { lemma_step_trans(old(self), &m, self, old(outbox)@, o, outbox@); }
                proof {
                    let fin = *self;
                    assert(handled(old(self), &fin, old(outbox)@, outbox@, membership, input));
                }
                r
            },
            ConsensusInput::TimeoutOneHonest(v, epoch) => {
                let r = self.handle_timeout(v, epoch, outbox);
                proof { lemma_step_trans(old(self), &m, self, old(outbox)@, o, outbox@); }
                proof {
                    let fin = *self;
                    assert(handled(old(self), &fin, old(outbox)@, outbox@, membership, input));
                }
                r
            },
            ConsensusInput::BlockBuilt { view: v, epoch, payload, metadata, payload_commitment } => {
                match payload_commitment {
                    VidCommitment::V2(c) => {
                        let out = ConsensusOutput::RequestVidDisperse {
                            view: v,
                            epoch,
                            payload: payload.duplicate(),
                            metadata,
                            payload_commitment: c,
                        };
                        self.emit(outbox, out);
                        proof { lemma_push(old(self), self, old(outbox)@, o, out); }
                        let ghost m1 = *self;
                        self.blocks.insert((v, c), payload);
                        proof {
                            if m1.wf() {
                                lemma_wf_frame(&m1, self);
                            }
                            lemma_mutate(old(self), &m1, self, old(outbox)@, outbox@);
                        }
                    },
                    // Only the newer dispersal scheme is built here.
                    VidCommitment::V1(_) => {},
                }
                proof {
                    let fin = *self;
                    assert(handled(old(self), &fin, old(outbox)@, outbox@, membership, input));
                }
                Protocol::Continue
            },
            ConsensusInput::VidDisperseCreated(v, commitment) => {
                self.blocks_reconstructed.insert((v, commitment));
                proof {
                    if m.wf() {
                        lemma_wf_frame(&m, self);
                    }
                    lemma_mutate(old(self), &m, self, old(outbox)@, outbox@);
                }
                proof {
                    let fin = *self;
                    assert(handled(old(self), &fin, old(outbox)@, outbox@, membership, input));
                }
                Protocol::Continue
            },
            ConsensusInput::DrbResult(epoch, drb) => {
                self.drb_results.insert(epoch, drb);
                proof {
                    if m.wf() {
                        lemma_wf_frame(&m, self);
                    }
                    lemma_mutate(old(self), &m, self, old(outbox)@, outbox@);
                }
                proof {
                    let fin = *self;
                    assert(handled(old(self), &fin, old(outbox)@, outbox@, membership, input));
                }
                Protocol::Continue
            },
            ConsensusInput::EpochChange(message) => {
                let r = self.handle_epoch_change(message, membership, outbox);
                proof { lemma_step_trans(old(self), &m, self, old(outbox)@, o, outbox@); assert(owed ==> r is Continue); }
                proof {
                    let fin = *self;
                    assert(handled(old(self), &fin, old(outbox)@, outbox@, membership, input));
                }
                r
            },
            ConsensusInput::ProposalSigned(message) => {
                self.on_proposal_signed(message, outbox);
                proof { lemma_step_trans(old(self), &m, self, old(outbox)@, o, outbox@); }
                proof {
                    let fin = *self;
                    assert(handled(old(self), &fin, old(outbox)@, outbox@, membership, input));
                }
                Protocol::Continue
            },
        };
        let ghost m2 = *self;
        let ghost o2 = outbox@;
        proof {
            assert(pairing_continues(old(self), &m2, input) ==> proto is Continue);
            assert(handled(old(self), &m2, old(outbox)@, o2, membership, input));
        }
        match proto {
            Protocol::Abort => {},
            Protocol::Continue => {
                self.retry_all(view, membership, outbox);
                proof {
                    lemma_step_trans(old(self), &m2, self, old(outbox)@, o2, outbox@);
                    assert(Consensus::retried_all(&m2, self, o2, outbox@, membership, rv));
                }
            },
        }
        proof { assert(owed ==> proto is Continue); }
        proof {
            // A retry only appends, and keeps what the handling filed.
            assert(m2.retry_keeps(self));
            assert forall|k: int| 0 <= k < o2.len() implies outbox@[k] == o2[k] by {
                assert(outbox@.subrange(0, o2.len() as int)[k] == outbox@[k]);
            }
            assert(outbox@.subrange(o.len() as int, o2.len() as int) =~= o2.subrange(o.len() as int, o2.len() as int));
        }
    }
}

/// The timeout certificates held are finitely many.
pub proof fn lemma_timeout_certs_finite(c: &Consensus)
    ensures
        c.spec_timeout_certs().dom().finite(),
{
}

} // verus!
