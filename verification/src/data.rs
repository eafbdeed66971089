//! The protocol's messages and certificates, as the values the decision logic
//! reads.
//!
//! Views, epochs and block numbers are integers. A leaf commitment, a payload
//! commitment, a DRB result and a signature key are opaque identifiers that
//! are only ever compared, so they are carried as integers too; the digests
//! behind them are computed where the bytes are.
use vstd::prelude::*;

verus! {

/// A quorum certificate over a leaf: the first-phase certificate.
#[derive(Clone, Copy, Debug)]
pub struct Certificate1 {
    pub view: u64,
    pub epoch: Option<u64>,
    pub leaf_commit: u64,
    pub block_number: Option<u64>,
}

/// The second-phase certificate, which decides the leaf it certifies.
#[derive(Clone, Copy, Debug)]
pub struct Certificate2 {
    pub view: u64,
    pub epoch: u64,
    pub leaf_commit: u64,
    pub block_number: u64,
}

/// A certificate that `view` timed out.
#[derive(Clone, Copy, Debug)]
pub struct TimeoutCertificate {
    pub view: u64,
    pub epoch: Option<u64>,
}

/// A light-client state certificate formed at an epoch root.
#[derive(Clone, Copy, Debug)]
pub struct StateCertificate {
    pub epoch: u64,
    pub view: u64,
    pub block_height: u64,
}

/// A payload commitment, in one of the two dispersal schemes.
#[derive(Clone, Copy, Debug)]
pub enum VidCommitment {
    V1(u64),
    V2(u64),
}

#[derive(Clone, Copy, Debug)]
pub struct BlockHeader {
    pub block_number: u64,
    pub payload_commitment: VidCommitment,
}

/// A block proposal. `leaf_commit` is the commitment of the leaf the proposal
/// forms; it covers everything but the state certificate.
#[derive(Clone, Copy, Debug)]
pub struct Proposal {
    pub block_header: BlockHeader,
    pub view: u64,
    pub epoch: u64,
    pub justify_qc: Certificate1,
    pub next_epoch_justify_qc: Option<Certificate2>,
    pub view_change_evidence: Option<TimeoutCertificate>,
    pub next_drb_result: Option<u64>,
    pub state_cert: Option<StateCertificate>,
    pub leaf_commit: u64,
}

/// A proposal with the proposer's signature over its leaf commitment.
#[derive(Debug)]
pub struct SignedProposal {
    pub data: Proposal,
    pub signature: Vec<u8>,
}

impl SignedProposal {
    pub fn duplicate(&self) -> (r: Self)
        ensures
            r.data == self.data,
            r.signature@ == self.signature@,
    {
        SignedProposal { data: self.data, signature: self.signature.clone() }
    }
}

/// The encoded bytes of a block payload.
#[derive(Debug)]
pub struct Payload {
    pub bytes: Vec<u8>,
}

impl Payload {
    pub fn duplicate(&self) -> (r: Self)
        ensures
            r.bytes@ == self.bytes@,
    {
        Payload { bytes: self.bytes.clone() }
    }
}

/// A decided or undecided leaf: a proposal, with its payload once known.
#[derive(Debug)]
pub struct Leaf {
    pub proposal: Proposal,
    pub payload: Option<Payload>,
}

impl Leaf {
    pub fn duplicate(&self) -> (r: Self)
        ensures
            r.proposal == self.proposal,
            r.payload is Some <==> self.payload is Some,
            self.payload is Some ==> r.payload->0.bytes@ == self.payload->0.bytes@,
    {
        Leaf {
            proposal: self.proposal,
            payload: match &self.payload {
                Some(p) => Some(p.duplicate()),
                None => None,
            },
        }
    }
}

/// This node's share of a dispersed payload.
#[derive(Clone, Copy, Debug)]
pub struct VidShare {
    pub view: u64,
    pub epoch: Option<u64>,
    pub payload_commitment: u64,
    pub payload_byte_len: u32,
}

/// A first-phase vote. A vote on an epoch-root leaf must also carry a state
/// vote, which whoever signs the vote attaches.
#[derive(Clone, Copy, Debug)]
pub struct Vote1 {
    pub view: u64,
    pub leaf_commit: u64,
    pub epoch: Option<u64>,
    pub block_number: Option<u64>,
    pub with_state_vote: bool,
}

/// A second-phase vote.
#[derive(Clone, Copy, Debug)]
pub struct Vote2 {
    pub view: u64,
    pub leaf_commit: u64,
    pub epoch: u64,
    pub block_number: u64,
}

#[derive(Clone, Copy, Debug)]
pub struct TimeoutVote {
    pub view: u64,
    pub epoch: Option<u64>,
}

/// The highest certificate a node holds, offered to peers that lag behind.
#[derive(Clone, Copy, Debug)]
pub enum CatchupEvidence {
    Qc(Certificate1),
    Tc(TimeoutCertificate),
}

/// The certificates and the boundary proposal that move peers into the next
/// epoch.
#[derive(Clone, Copy, Debug)]
pub struct EpochChangeMessage {
    pub cert1: Certificate1,
    pub cert2: Certificate2,
    pub proposal: Proposal,
}

#[derive(Clone, Copy, Debug)]
pub struct StateResponse {
    pub view: u64,
    pub commitment: u64,
}

#[derive(Clone, Copy, Debug)]
pub struct StateRequest {
    pub view: u64,
    pub parent_view: u64,
    pub epoch: u64,
    pub block: u64,
    pub proposal: Proposal,
    pub parent_commitment: u64,
    pub payload_size: u32,
}

#[derive(Clone, Copy, Debug)]
pub struct BlockAndHeaderRequest {
    pub view: u64,
    pub epoch: u64,
    pub parent_proposal: Proposal,
}

/// What has been persisted, which gates what may be sent.
#[derive(Clone, Copy, Debug)]
pub enum ActionKind {
    Vote,
    Propose,
}

#[derive(Clone, Copy, Debug)]
pub enum StorageOutput {
    Proposal(u64, u64),
    Vid(u64),
    Action(u64, ActionKind),
    HighQc(u64),
}

impl StorageOutput {
    pub open spec fn spec_view(self) -> u64 {
        match self {
            StorageOutput::Proposal(v, _) => v,
            StorageOutput::Vid(v) => v,
            StorageOutput::Action(v, _) => v,
            StorageOutput::HighQc(v) => v,
        }
    }

    pub fn view_number(&self) -> (r: u64)
        ensures
            r == self.spec_view(),
    {
        match self {
            StorageOutput::Proposal(v, _) => *v,
            StorageOutput::Vid(v) => *v,
            StorageOutput::Action(v, _) => *v,
            StorageOutput::HighQc(v) => *v,
        }
    }
}

impl CatchupEvidence {
    pub open spec fn spec_view(self) -> u64 {
        match self {
            CatchupEvidence::Qc(qc) => qc.view,
            CatchupEvidence::Tc(tc) => tc.view,
        }
    }

    pub fn view_number(&self) -> (r: u64)
        ensures
            r == self.spec_view(),
    {
        match self {
            CatchupEvidence::Qc(qc) => qc.view,
            CatchupEvidence::Tc(tc) => tc.view,
        }
    }
}

/// Whether two optional identifiers are equal.
pub fn same_opt(a: Option<u64>, b: Option<u64>) -> (r: bool)
    ensures
        r == (a == b),
{
    match (a, b) {
        (Some(x), Some(y)) => x == y,
        (None, None) => true,
        _ => false,
    }
}

} // verus!
