//! What holds of every run of [`Consensus::apply`], and of runs in a row.
//!
//! Each run is a [`Consensus::step`]; these are the properties of the
//! protocol that the steps carry, stated one by one.
use crate::consensus::{
    agrees, decision_ok, lemma_same_except_vote1_held, lemma_same_except_voted_1, lemma_step_trans,
    lemma_timeout_certs_finite, max_spec, opt_le, repeats, sat_inc, timed_out, vote1_due, Consensus,
    ConsensusOutput, Part,
};
use crate::data::{CatchupEvidence, TimeoutCertificate, Vote1};
use crate::membership::Membership;
use vstd::prelude::*;

verus! {

/// No view is voted in twice in the same phase, and no view is decided
/// twice, over two runs in a row (and so, run after run, ever).
pub proof fn law_no_repeated_vote_or_decision(
    a: &Consensus,
    b: &Consensus,
    c: &Consensus,
    oa: Seq<ConsensusOutput>,
    ob: Seq<ConsensusOutput>,
    oc: Seq<ConsensusOutput>,
)
    requires
        a.wf(),
        Consensus::step(a, b, oa, ob),
        Consensus::step(b, c, ob, oc),
    ensures
        forall|i: int, j: int| oa.len() <= i < j < oc.len() ==> !repeats(#[trigger] oc[i], #[trigger] oc[j]),
{
    lemma_step_trans(a, b, c, oa, ob, oc);
}

/// Views, the timeout barrier, the decided view, the decide floor, the lock
/// and the persisted lock never move back; the views voted in, proposed in
/// and decided are never forgotten; well-formedness is kept.
pub proof fn law_runs_only_advance(a: &Consensus, b: &Consensus, oa: Seq<ConsensusOutput>, ob: Seq<ConsensusOutput>)
    requires
        Consensus::step(a, b, oa, ob),
    ensures
        a.spec_current_view() <= b.spec_current_view(),
        a.spec_timeout_view() <= b.spec_timeout_view(),
        a.spec_last_decided_view() <= b.spec_last_decided_view(),
        a.spec_decide_floor() <= b.spec_decide_floor(),
        opt_le(a.spec_locked_view(), b.spec_locked_view()),
        opt_le(a.spec_stored_high_qc(), b.spec_stored_high_qc()),
        a.spec_voted_1().subset_of(b.spec_voted_1()),
        a.spec_voted_2().subset_of(b.spec_voted_2()),
        a.spec_proposed().subset_of(b.spec_proposed()),
        a.spec_decided().subset_of(b.spec_decided()),
        a.wf() ==> b.wf(),
        ob.subrange(0, oa.len() as int) == oa,
{
}

/// A first vote goes out only for a view past the timeout barrier of the
/// state the run started in.
pub proof fn law_vote1_after_barrier(a: &Consensus, b: &Consensus, oa: Seq<ConsensusOutput>, ob: Seq<ConsensusOutput>)
    requires
        a.wf(),
        Consensus::step(a, b, oa, ob),
    ensures
        forall|i: int|
            oa.len() <= i < ob.len() ==> (#[trigger] ob[i] matches ConsensusOutput::SendVote1(v) ==> v.view
                > a.spec_timeout_view()),
{
    assert forall|i: int| oa.len() <= i < ob.len() implies (#[trigger] ob[i] matches ConsensusOutput::SendVote1(v)
        ==> v.view > a.spec_timeout_view()) by {
        assert(Consensus::output_ok(a, b, ob[i]));
    }
}

/// Once a timeout of a view at or past the current one is applied, no later
/// run sends a first vote for that view or any before it.
pub proof fn law_timeout_bars_first_votes(
    a: &Consensus,
    b: &Consensus,
    c: &Consensus,
    oa: Seq<ConsensusOutput>,
    ob: Seq<ConsensusOutput>,
    oc: Seq<ConsensusOutput>,
    view: u64,
    epoch: u64,
)
    requires
        a.wf(),
        timed_out(a, b, oa, ob, view, epoch),
        view >= a.spec_current_view(),
        Consensus::step(a, b, oa, ob),
        Consensus::step(b, c, ob, oc),
    ensures
        forall|i: int|
            ob.len() <= i < oc.len() ==> (#[trigger] oc[i] matches ConsensusOutput::SendVote1(v) ==> v.view > view),
{
    assert(b.spec_timeout_view() == max_spec(a.spec_timeout_view(), view));
    assert forall|i: int| ob.len() <= i < oc.len() implies (#[trigger] oc[i] matches ConsensusOutput::SendVote1(v)
        ==> v.view > view) by {
        assert(Consensus::output_ok(b, c, oc[i]));
    }
}

/// A second vote goes out only once this node is locked on its view or a
/// later one, and that lock is persisted.
pub proof fn law_vote2_on_persisted_lock(a: &Consensus, b: &Consensus, oa: Seq<ConsensusOutput>, ob: Seq<ConsensusOutput>)
    requires
        a.wf(),
        Consensus::step(a, b, oa, ob),
    ensures
        forall|i: int|
            oa.len() <= i < ob.len() ==> (#[trigger] ob[i] matches ConsensusOutput::SendVote2(v) ==> {
                &&& opt_le(Some(v.view), b.spec_stored_high_qc())
                &&& opt_le(Some(v.view), b.spec_locked_view())
            }),
{
    assert forall|i: int| oa.len() <= i < ob.len() implies (#[trigger] ob[i] matches ConsensusOutput::SendVote2(v) ==> {
        &&& opt_le(Some(v.view), b.spec_stored_high_qc())
        &&& opt_le(Some(v.view), b.spec_locked_view())
    }) by {
        assert(Consensus::output_ok(a, b, ob[i]));
    }
}

/// A decision is a chain of leaves, newest first, each certified by the
/// justify QC of the one before, all above the decide floor and none decided
/// before; its second certificate certifies the newest leaf.
pub proof fn law_decisions_are_certified_chains(a: &Consensus, b: &Consensus, oa: Seq<ConsensusOutput>, ob: Seq<ConsensusOutput>)
    requires
        a.wf(),
        Consensus::step(a, b, oa, ob),
    ensures
        forall|i: int|
            oa.len() <= i < ob.len() ==> (#[trigger] ob[i] matches ConsensusOutput::LeafDecided {
                leaves,
                cert1,
                cert2,
                ..
            } ==> decision_ok(a, b, leaves@, cert1, cert2)),
{
    assert forall|i: int| oa.len() <= i < ob.len() implies (#[trigger] ob[i] matches ConsensusOutput::LeafDecided {
        leaves,
        cert1,
        cert2,
        ..
    } ==> decision_ok(a, b, leaves@, cert1, cert2)) by {
        assert(Consensus::output_ok(a, b, ob[i]));
    }
}

/// Whether `m` is the highest view a timeout certificate is filed under.
pub open spec fn filed_last(tcs: Map<u64, TimeoutCertificate>, m: u64) -> bool {
    tcs.contains_key(m) && forall|j: u64| #[trigger] tcs.contains_key(j) ==> j <= m
}

/// A finite, non-empty set of views has a highest one.
proof fn lemma_highest(s: Set<u64>) -> (m: u64)
    requires
        s.finite(),
        s.len() > 0,
    ensures
        s.contains(m),
        forall|v: u64| #[trigger] s.contains(v) ==> v <= m,
    decreases s.len(),
{
    let x = s.choose();
    let r = s.remove(x);
    if r.len() == 0 {
        assert forall|v: u64| #[trigger] s.contains(v) implies v <= x by {
            if v != x {
                assert(r.contains(v));
            }
        }
        x
    } else {
        let m = lemma_highest(r);
        let best = if m >= x { m } else { x };
        assert forall|v: u64| #[trigger] s.contains(v) implies v <= best by {
            if v != x {
                assert(r.contains(v));
            }
        }
        best
    }
}

/// The catch-up evidence sent with a timeout vote is the certificate of the
/// highest view held: nothing when neither a lock nor a timeout certificate
/// is held; the locked QC when its view is above that of the timeout
/// certificate filed last; that timeout certificate otherwise, whose view is
/// then at least the lock's. Where each timeout certificate is filed under
/// the view after its own, as they are when received, the evidence's view
/// is at least that of every certificate held.
pub proof fn law_catchup_evidence_is_highest(c: &Consensus)
    ensures
        (c.spec_catchup_evidence() is None) == (c.spec_locked() is None && c.spec_timeout_certs().dom().len() == 0),
        c.spec_catchup_evidence() matches Some(CatchupEvidence::Qc(qc)) ==> {
            &&& c.spec_locked() == Some(qc)
            &&& forall|m: u64| #[trigger] filed_last(c.spec_timeout_certs(), m) ==> c.spec_timeout_certs()[m].view < qc.view
        },
        c.spec_catchup_evidence() matches Some(CatchupEvidence::Tc(tc)) ==> {
            &&& exists|m: u64| #[trigger] filed_last(c.spec_timeout_certs(), m) && c.spec_timeout_certs()[m] == tc
            &&& c.spec_locked() matches Some(qc) ==> qc.view <= tc.view
        },
        (forall|k: u64| #[trigger] c.spec_timeout_certs().contains_key(k) ==> k == sat_inc(c.spec_timeout_certs()[k].view))
            ==> forall|k: u64| #[trigger] c.spec_timeout_certs().contains_key(k) ==> {
            &&& c.spec_catchup_evidence() matches Some(CatchupEvidence::Qc(qc)) ==> c.spec_timeout_certs()[k].view < qc.view
            &&& c.spec_catchup_evidence() matches Some(CatchupEvidence::Tc(tc)) ==> c.spec_timeout_certs()[k].view <= tc.view
        },
{
    let tcs = c.spec_timeout_certs();
    lemma_timeout_certs_finite(c);
    if tcs.dom().len() > 0 {
        let m0 = lemma_highest(tcs.dom());
        assert(filed_last(tcs, m0));
        let m = choose|m: u64| tcs.contains_key(m) && forall|v: u64| #[trigger] tcs.contains_key(v) ==> v <= m;
        assert(m == m0);
        assert(c.spec_last_timeout_cert() == Some(tcs[m0]));
        assert forall|m1: u64| #[trigger] filed_last(tcs, m1) implies m1 == m0 by {
            assert(tcs.contains_key(m0));
        }
        if forall|k: u64| #[trigger] tcs.contains_key(k) ==> k == sat_inc(tcs[k].view) {
            assert forall|k: u64| #[trigger] tcs.contains_key(k) implies tcs[k].view <= tcs[m0].view by {
                if k != m0 && tcs[k].view > tcs[m0].view {
                    assert(sat_inc(tcs[k].view) >= sat_inc(tcs[m0].view));
                }
            }
        }
    } else {
        assert(c.spec_last_timeout_cert() is None);
    }
}

/// A first vote carries a light-client state vote exactly when the block it
/// votes for is an epoch root: a block `b` with `b + 5` a multiple of the
/// epoch height `h`, neither being zero. This holds of the vote sent at once
/// and of the vote held back until storage confirms.
pub proof fn law_state_vote_at_epoch_roots(
    start: &Consensus,
    end: &Consensus,
    before: Seq<ConsensusOutput>,
    after: Seq<ConsensusOutput>,
    membership: &Membership,
    view: u64,
)
    requires
        Consensus::vote1_ran(start, end, before, after, membership, view),
    ensures
        forall|i: int|
            #![trigger after[i]]
            before.len() <= i < after.len() ==> (after[i] matches ConsensusOutput::SendVote1(v) ==> {
                let b = start.spec_proposals()[view].block_header.block_number;
                let h = start.spec_epoch_height();
                &&& v.view == view
                &&& start.spec_proposals().contains_key(view)
                &&& v.block_number == Some(b)
                &&& v.with_state_vote == (b != 0 && h != 0 && (b + 5) % (h as int) == 0)
            }),
        forall|w: u64|
            #[trigger] end.spec_pending_vote1().contains_key(w) && !(start.spec_pending_vote1().contains_key(w) && end.spec_pending_vote1()[w] == start.spec_pending_vote1()[w]) ==> {
                let v = end.spec_pending_vote1()[w];
                let b = start.spec_proposals()[view].block_header.block_number;
                let h = start.spec_epoch_height();
                &&& w == view && v.view == view
                &&& start.spec_proposals().contains_key(view)
                &&& v.block_number == Some(b)
                &&& v.with_state_vote == (b != 0 && h != 0 && (b + 5) % (h as int) == 0)
            },
{
    if let Some(vote) = vote1_due(start, membership, view) {
        if start.vote1_persisted(view, vote.leaf_commit) {
            lemma_same_except_voted_1(start, end);
            assert(agrees(start, end, Part::PendingVote1));
            assert forall|i: int| #![trigger after[i]] before.len() <= i < after.len() implies (after[i] matches ConsensusOutput::SendVote1(v) ==> v == vote) by {
                if i == before.len() {
                    assert(after[i] == ConsensusOutput::SendVote1(vote));
                } else {
                    assert(after[i] is BroadcastVidShare);
                }
            }
        } else {
            lemma_same_except_vote1_held(start, end);
            assert(after.len() <= before.len() + 1);
            assert forall|i: int| #![trigger after[i]] before.len() <= i < after.len() implies !(after[i] is SendVote1) by {
                assert(after[i] is RecordAction);
            }
        }
    }
}

/// A proposal sent out to be signed is for the view proposed in and rests on
/// the certificates held for it: when a timeout certificate is filed under
/// that view, the proposal extends the lock and carries exactly that
/// certificate as the evidence for skipping the views between; otherwise it
/// extends the first certificate of the view before and carries none.
pub proof fn law_proposal_carries_its_evidence(
    start: &Consensus,
    end: &Consensus,
    before: Seq<ConsensusOutput>,
    after: Seq<ConsensusOutput>,
    membership: &Membership,
    view: u64,
)
    requires
        Consensus::propose_ran(start, end, before, after, membership, view),
    ensures
        forall|i: int|
            #![trigger after[i]]
            before.len() <= i < after.len() ==> (after[i] matches ConsensusOutput::SignProposal(p) ==> {
                let tcs = start.spec_timeout_certs();
                &&& p.view == view
                &&& tcs.contains_key(view) ==> p.view_change_evidence == Some(tcs[view]) && start.spec_locked()
                    == Some(p.justify_qc)
                &&& !tcs.contains_key(view) ==> p.view_change_evidence is None && view >= 1
                    && start.spec_certs1().contains_key((view - 1) as u64) && p.justify_qc == start.spec_certs1()[(view
                    - 1) as u64]
            }),
{
}

} // verus!
