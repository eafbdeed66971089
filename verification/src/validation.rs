//! Structural checks on proposals and epoch-change messages: everything a
//! message claims about its block and its parent that can be checked without
//! looking at a signature.
use crate::data::{
    same_opt, Certificate1, Certificate2, EpochChangeMessage, Proposal, StateCertificate,
    TimeoutCertificate,
};
use crate::schedule::{
    epoch_from_block_number, is_epoch_root, is_last_block, spec_epoch_from_block_number,
    spec_is_epoch_root, spec_is_last_block,
};
use vstd::prelude::*;

verus! {

/// Reason a proposal is not well formed.
#[derive(Clone, Copy, Debug)]
pub enum MalformedProposal {
    /// The proposal claims an epoch its block number does not fall in.
    Epoch { view: u64, block_number: u64, expected: u64, claimed: u64 },
    JustifyQcWithoutEpoch(u64),
    JustifyQcWithoutBlockNumber(u64),
    /// The justify QC names another epoch than its parent block falls in.
    JustifyQcEpoch { view: u64, parent_block: u64, expected: u64, claimed: u64 },
    /// The justify QC certifies another block than the parent block.
    JustifyQcBlockNumber { view: u64, expected: u64, claimed: u64 },
    NextEpochJustifyQcMissing(u64),
    NextEpochJustifyQcLeafCommit(u64),
    NextEpochJustifyQcParent {
        view: u64,
        claimed_view: u64,
        claimed_epoch: u64,
        claimed_block: u64,
        parent_view: u64,
        parent_epoch: u64,
        parent_block: u64,
    },
    /// The justify QC is not for an earlier view.
    ParentNotEarlier { view: u64, parent_view: u64 },
    ViewChangeEvidenceMissing(u64),
    /// The timeout certificate is not for the immediately preceding view.
    ViewChangeEvidenceView { view: u64, evidence_view: u64 },
}

/// The certificates a well-formed proposal carries, whose signatures are
/// checked next, and the epoch whose committee formed its justify QC.
#[derive(Clone, Copy, Debug)]
pub struct Parts {
    pub justify_qc_epoch: u64,
    pub next_epoch_justify_qc: Option<Certificate2>,
    pub view_change_evidence: Option<TimeoutCertificate>,
}

/// The block number of the proposal's parent.
pub open spec fn parent_block(p: Proposal) -> u64 {
    if p.block_header.block_number == 0 {
        0
    } else {
        (p.block_header.block_number - 1) as u64
    }
}

pub open spec fn spec_epoch_matches_height(p: Proposal, h: u64) -> Result<(), MalformedProposal> {
    let expected = spec_epoch_from_block_number(p.block_header.block_number, h);
    if p.epoch != expected {
        Err(
            MalformedProposal::Epoch {
                view: p.view,
                block_number: p.block_header.block_number,
                expected: expected as u64,
                claimed: p.epoch,
            },
        )
    } else {
        Ok(())
    }
}

pub open spec fn spec_justify_qc_matches_parent(p: Proposal, h: u64) -> Result<u64, MalformedProposal> {
    let expected = spec_epoch_from_block_number(parent_block(p), h);
    match p.justify_qc.epoch {
        None => Err(MalformedProposal::JustifyQcWithoutEpoch(p.view)),
        Some(claimed) => if claimed != expected {
            Err(
                MalformedProposal::JustifyQcEpoch {
                    view: p.view,
                    parent_block: parent_block(p),
                    expected: expected as u64,
                    claimed,
                },
            )
        } else {
            match p.justify_qc.block_number {
                None => Err(MalformedProposal::JustifyQcWithoutBlockNumber(p.view)),
                Some(b) => if b != parent_block(p) {
                    Err(
                        MalformedProposal::JustifyQcBlockNumber {
                            view: p.view,
                            expected: parent_block(p),
                            claimed: b,
                        },
                    )
                } else {
                    Ok(claimed)
                },
            }
        },
    }
}

pub open spec fn spec_next_epoch_justify_qc_matches_parent(p: Proposal, h: u64, qc_epoch: u64) -> Result<
    Option<Certificate2>,
    MalformedProposal,
> {
    if !spec_is_last_block(parent_block(p), h) {
        Ok(None)
    } else {
        match p.next_epoch_justify_qc {
            None => Err(MalformedProposal::NextEpochJustifyQcMissing(p.view)),
            Some(c2) => if c2.leaf_commit != p.justify_qc.leaf_commit {
                Err(MalformedProposal::NextEpochJustifyQcLeafCommit(p.view))
            } else if c2.view != p.justify_qc.view || c2.epoch != qc_epoch || c2.block_number
                != parent_block(p) {
                Err(
                    MalformedProposal::NextEpochJustifyQcParent {
                        view: p.view,
                        claimed_view: c2.view,
                        claimed_epoch: c2.epoch,
                        claimed_block: c2.block_number,
                        parent_view: p.justify_qc.view,
                        parent_epoch: qc_epoch,
                        parent_block: parent_block(p),
                    },
                )
            } else {
                Ok(Some(c2))
            },
        }
    }
}

pub open spec fn spec_view_change_evidence_matches_parent(p: Proposal) -> Result<
    Option<TimeoutCertificate>,
    MalformedProposal,
> {
    if p.justify_qc.view >= p.view {
        Err(MalformedProposal::ParentNotEarlier { view: p.view, parent_view: p.justify_qc.view })
    } else if p.justify_qc.view + 1 == p.view {
        Ok(None)
    } else {
        match p.view_change_evidence {
            None => Err(MalformedProposal::ViewChangeEvidenceMissing(p.view)),
            Some(tc) => if tc.view + 1 != p.view {
                Err(MalformedProposal::ViewChangeEvidenceView { view: p.view, evidence_view: tc.view })
            } else {
                Ok(Some(tc))
            },
        }
    }
}

/// The checks of [`well_formed`], in the order they run: the first failure is
/// the one reported.
pub open spec fn spec_well_formed(p: Proposal, h: u64) -> Result<Parts, MalformedProposal> {
    match spec_epoch_matches_height(p, h) {
        Err(e) => Err(e),
        Ok(_) => match spec_justify_qc_matches_parent(p, h) {
            Err(e) => Err(e),
            Ok(qc_epoch) => match spec_next_epoch_justify_qc_matches_parent(p, h, qc_epoch) {
                Err(e) => Err(e),
                Ok(c2) => match spec_view_change_evidence_matches_parent(p) {
                    Err(e) => Err(e),
                    Ok(tc) => Ok(
                        Parts {
                            justify_qc_epoch: qc_epoch,
                            next_epoch_justify_qc: c2,
                            view_change_evidence: tc,
                        },
                    ),
                },
            },
        },
    }
}

/// The proposal's epoch must be the one its block number falls in.
pub fn epoch_matches_height(p: &Proposal, epoch_height: u64) -> (r: Result<(), MalformedProposal>)
    ensures
        r == spec_epoch_matches_height(*p, epoch_height),
{
    let block_number = p.block_header.block_number;
    let expected = epoch_from_block_number(block_number, epoch_height);
    if p.epoch != expected {
        return Err(
            MalformedProposal::Epoch { view: p.view, block_number, expected, claimed: p.epoch },
        );
    }
    Ok(())
}

/// The justify QC must certify the block before this proposal, in the epoch
/// that block falls in. Returns that epoch.
pub fn justify_qc_matches_parent(p: &Proposal, epoch_height: u64) -> (r: Result<u64, MalformedProposal>)
    ensures
        r == spec_justify_qc_matches_parent(*p, epoch_height),
{
    let view = p.view;
    let claimed_epoch = match p.justify_qc.epoch {
        None => return Err(MalformedProposal::JustifyQcWithoutEpoch(view)),
        Some(e) => e,
    };
    let parent_block = p.block_header.block_number.saturating_sub(1);
    let expected_epoch = epoch_from_block_number(parent_block, epoch_height);
    if claimed_epoch != expected_epoch {
        return Err(
            MalformedProposal::JustifyQcEpoch {
                view,
                parent_block,
                expected: expected_epoch,
                claimed: claimed_epoch,
            },
        );
    }
    let claimed_block = match p.justify_qc.block_number {
        None => return Err(MalformedProposal::JustifyQcWithoutBlockNumber(view)),
        Some(b) => b,
    };
    if claimed_block != parent_block {
        return Err(
            MalformedProposal::JustifyQcBlockNumber {
                view,
                expected: parent_block,
                claimed: claimed_block,
            },
        );
    }
    Ok(claimed_epoch)
}

/// The first proposal of an epoch must carry the boundary block's second
/// certificate, certifying the same block as its justify QC.
pub fn next_epoch_justify_qc_matches_parent(p: &Proposal, epoch_height: u64, justify_qc_epoch: u64) -> (r:
    Result<Option<Certificate2>, MalformedProposal>)
    ensures
        r == spec_next_epoch_justify_qc_matches_parent(*p, epoch_height, justify_qc_epoch),
{
    let parent_block = p.block_header.block_number.saturating_sub(1);
    if !is_last_block(parent_block, epoch_height) {
        return Ok(None);
    }
    let view = p.view;
    let cert2 = match p.next_epoch_justify_qc {
        None => return Err(MalformedProposal::NextEpochJustifyQcMissing(view)),
        Some(c) => c,
    };
    if cert2.leaf_commit != p.justify_qc.leaf_commit {
        return Err(MalformedProposal::NextEpochJustifyQcLeafCommit(view));
    }
    let parent_view = p.justify_qc.view;
    if cert2.view != parent_view || cert2.epoch != justify_qc_epoch || cert2.block_number
        != parent_block {
        return Err(
            MalformedProposal::NextEpochJustifyQcParent {
                view,
                claimed_view: cert2.view,
                claimed_epoch: cert2.epoch,
                claimed_block: cert2.block_number,
                parent_view,
                parent_epoch: justify_qc_epoch,
                parent_block,
            },
        );
    }
    Ok(Some(cert2))
}

/// A proposal extends an earlier view, and skips views only with a timeout
/// certificate for the view immediately before it.
pub fn view_change_evidence_matches_parent(p: &Proposal) -> (r: Result<
    Option<TimeoutCertificate>,
    MalformedProposal,
>)
    ensures
        r == spec_view_change_evidence_matches_parent(*p),
{
    let view = p.view;
    let parent_view = p.justify_qc.view;
    if parent_view >= view {
        return Err(MalformedProposal::ParentNotEarlier { view, parent_view });
    }
    if parent_view + 1 == view {
        return Ok(None);
    }
    let tc = match p.view_change_evidence {
        None => return Err(MalformedProposal::ViewChangeEvidenceMissing(view)),
        Some(tc) => tc,
    };
    if tc.view as u128 + 1 != view as u128 {
        return Err(MalformedProposal::ViewChangeEvidenceView { view, evidence_view: tc.view });
    }
    Ok(Some(tc))
}

/// Everything a proposal claims about its own block and its parent, checked
/// without signatures.
pub fn well_formed(p: &Proposal, epoch_height: u64) -> (r: Result<Parts, MalformedProposal>)
    ensures
        r == spec_well_formed(*p, epoch_height),
{
    epoch_matches_height(p, epoch_height)?;
    let justify_qc_epoch = justify_qc_matches_parent(p, epoch_height)?;
    let next_epoch_justify_qc = next_epoch_justify_qc_matches_parent(
        p,
        epoch_height,
        justify_qc_epoch,
    )?;
    let view_change_evidence = view_change_evidence_matches_parent(p)?;
    Ok(Parts { justify_qc_epoch, next_epoch_justify_qc, view_change_evidence })
}

/// Reason an epoch-change message is not well formed.
#[derive(Clone, Copy, Debug)]
pub enum EpochChangeError {
    /// The certificates differ in view, epoch or leaf commitment.
    CertificateMismatch,
    /// The second certificate is not for the last block of an epoch.
    NotLastBlock,
    /// The second certificate's block number does not match its epoch.
    WrongEpoch,
    /// The proposal is not the leaf the first certificate certifies.
    ProposalMismatch,
}

pub open spec fn spec_epoch_change_well_formed(m: EpochChangeMessage, h: u64) -> Result<(), EpochChangeError> {
    if m.cert1.view != m.cert2.view || m.cert1.epoch != Some(m.cert2.epoch) || m.cert1.leaf_commit
        != m.cert2.leaf_commit {
        Err(EpochChangeError::CertificateMismatch)
    } else if !spec_is_last_block(m.cert2.block_number, h) {
        Err(EpochChangeError::NotLastBlock)
    } else if m.cert2.block_number / h != m.cert2.epoch {
        Err(EpochChangeError::WrongEpoch)
    } else if m.proposal.leaf_commit != m.cert1.leaf_commit {
        Err(EpochChangeError::ProposalMismatch)
    } else {
        Ok(())
    }
}

impl EpochChangeMessage {
    /// Structural validity of the message, independent of signatures.
    pub fn well_formed(&self, epoch_height: u64) -> (r: Result<(), EpochChangeError>)
        ensures
            r == spec_epoch_change_well_formed(*self, epoch_height),
    {
        if self.cert1.view != self.cert2.view || !same_opt(self.cert1.epoch, Some(self.cert2.epoch))
            || self.cert1.leaf_commit != self.cert2.leaf_commit {
            return Err(EpochChangeError::CertificateMismatch);
        }
        if !is_last_block(self.cert2.block_number, epoch_height) {
            return Err(EpochChangeError::NotLastBlock);
        }
        if self.cert2.block_number / epoch_height != self.cert2.epoch {
            return Err(EpochChangeError::WrongEpoch);
        }
        if self.proposal.leaf_commit != self.cert1.leaf_commit {
            return Err(EpochChangeError::ProposalMismatch);
        }
        Ok(())
    }

    pub fn view_number(&self) -> (r: u64)
        ensures
            r == self.cert1.view,
    {
        self.cert1.view
    }

    pub fn epoch(&self) -> (r: Option<u64>)
        ensures
            r == self.cert1.epoch,
    {
        self.cert1.epoch
    }
}

/// Whether a state certificate is the one an epoch-root QC calls for: the QC
/// certifies an epoch-root block, and the certificate names that block, the
/// QC's view, and the epoch the block falls in.
pub open spec fn spec_state_cert_corresponds(qc: Certificate1, sc: StateCertificate, h: u64) -> bool {
    match qc.block_number {
        None => false,
        Some(b) => spec_is_epoch_root(b, h) && sc.block_height == b && sc.view == qc.view
            && sc.epoch == spec_epoch_from_block_number(b, h),
    }
}

pub fn state_cert_corresponds(qc: &Certificate1, sc: &StateCertificate, epoch_height: u64) -> (r: bool)
    ensures
        r == spec_state_cert_corresponds(*qc, *sc, epoch_height),
{
    match qc.block_number {
        None => false,
        Some(b) => is_epoch_root(b, epoch_height) && sc.block_height == b && sc.view == qc.view
            && sc.epoch == epoch_from_block_number(b, epoch_height),
    }
}

/// The proposal's state certificate, if it is the one its justify QC calls
/// for. A relayer can substitute the certificate without touching the leaf
/// commitment, so every place that stores one checks this first.
pub fn validated_state_cert(p: &Proposal, epoch_height: u64) -> (r: Option<StateCertificate>)
    ensures
        r == (match p.state_cert {
            Some(sc) => if spec_state_cert_corresponds(p.justify_qc, sc, epoch_height) {
                Some(sc)
            } else {
                None
            },
            None => None,
        }),
{
    match p.state_cert {
        None => None,
        Some(sc) => if state_cert_corresponds(&p.justify_qc, &sc, epoch_height) {
            Some(sc)
        } else {
            None
        },
    }
}

} // verus!
