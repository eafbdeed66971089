//! A benchmark node's configuration and its per-view timing metrics.
use crate::consensus::{ConsensusInput, ConsensusOutput};
use std::collections::BTreeMap;
use std::time::{Duration, Instant};
use vstd::prelude::*;
use vstd::std_specs::iter::IteratorSpec;

verus! {

broadcast use vstd::std_specs::btree::group_btree_axioms, vstd::laws_cmp::group_laws_cmp;

/// A benchmark node's settings.
pub struct NodeConfig {
    /// This node's index.
    pub node_id: u64,
    /// The number of consensus nodes.
    pub total_nodes: usize,
    /// The view timeout, in milliseconds.
    pub timeout_ms: u64,
    /// Stop after this many views have been decided.
    pub target_views: u64,
    /// The address the network binds.
    pub bind_addr: String,
    /// The peers' addresses, in the order of their indices.
    pub peers: Vec<String>,
    /// Where the metrics are written.
    pub output_file: String,
    /// The block payload size, in bytes.
    pub block_size: usize,
    /// How many namespaces each block payload is split into.
    pub namespaces: u32,
    /// The period of the CPU and network sampler, in milliseconds.
    pub sampler_tick_ms: u64,
}

#[verifier::external_type_specification]
#[verifier::external_body]
pub struct ExInstant(Instant);

/// What `Duration::from_millis` gives for `ms` milliseconds.
pub uninterp spec fn duration_from_millis(ms: u64) -> Duration;

/// `Duration::from_millis`: the duration of `ms` milliseconds, a function of
/// `ms` alone, whose whole nanoseconds (`Duration::as_nanos`) are `ms`
/// million.
#[verifier::external_body]
fn millis(ms: u64) -> (d: Duration)
    ensures
        d == duration_from_millis(ms),
        duration_nanos(d) == ms * 1_000_000,
{
    Duration::from_millis(ms)
}

/// `Instant::now`: the current time. Nothing is claimed of it.
#[verifier::external_body]
fn now() -> Instant {
    Instant::now()
}

/// `Instant::elapsed`: the time since `start`. Nothing is claimed of it.
#[verifier::external_body]
fn elapsed_since(start: &Instant) -> Duration {
    start.elapsed()
}

/// What `Duration::as_nanos` gives for `d`: its whole nanoseconds.
pub uninterp spec fn duration_nanos(d: Duration) -> u128;

/// `Duration::as_nanos`: the whole nanoseconds of `d`, a function of `d`
/// alone.
#[verifier::external_body]
fn nanos_of(d: &Duration) -> (r: u128)
    ensures
        r == duration_nanos(*d),
{
    d.as_nanos()
}

/// Where a benchmark node sends an output of consensus.
#[derive(Clone, Copy, Debug, PartialEq, Eq)]
pub enum OutputRoute {
    /// Build a test block for the request, off the coordinator's loop.
    BuildTestBlock,
    /// Drop it: the test block was dispersed while it was built.
    Skip,
    /// Hand it to the coordinator.
    Process,
}

/// Where `output` goes: with test blocks configured (a block size above
/// zero), a block request is served by building a test block and a
/// dispersal request is dropped; everything else goes to the coordinator.
pub open spec fn spec_route(output: &ConsensusOutput, block_size: usize) -> OutputRoute {
    if block_size > 0 && output is RequestBlockAndHeader {
        OutputRoute::BuildTestBlock
    } else if block_size > 0 && output is RequestVidDisperse {
        OutputRoute::Skip
    } else {
        OutputRoute::Process
    }
}

impl NodeConfig {
    /// Where this node sends `output`.
    pub fn route_output(&self, output: &ConsensusOutput) -> (r: OutputRoute)
        ensures
            r == spec_route(output, self.block_size),
    {
        if self.block_size > 0 {
            match output {
                ConsensusOutput::RequestBlockAndHeader(_) => return OutputRoute::BuildTestBlock,
                ConsensusOutput::RequestVidDisperse { .. } => return OutputRoute::Skip,
                _ => {},
            }
        }
        OutputRoute::Process
    }

    /// The view timeout.
    pub fn timeout_duration(&self) -> (r: Duration)
        ensures
            r == duration_from_millis(self.timeout_ms),
            duration_nanos(r) == self.timeout_ms * 1_000_000,
    {
        millis(self.timeout_ms)
    }
}

/// The timings of one view, in nanoseconds since the collector started.
#[derive(Debug, Clone, Copy, Default)]
pub struct ViewMetrics {
    pub view: u64,
    pub is_leader: bool,
    pub proposal_recv_ns: Option<u128>,
    pub state_validated_ns: Option<u128>,
    pub vote1_sent_ns: Option<u128>,
    pub cert1_formed_ns: Option<u128>,
    pub vote2_sent_ns: Option<u128>,
    pub cert2_formed_ns: Option<u128>,
    pub leaf_decided_ns: Option<u128>,
    pub proposal_sent_ns: Option<u128>,
    pub vid_disperse_ns: Option<u128>,
    pub block_reconstructed_ns: Option<u128>,
}

/// Which timing of a view an event fills in.
#[derive(Clone, Copy, Debug)]
pub enum Mark {
    ProposalReceived,
    StateValidated,
    Vote1Sent,
    Cert1Formed,
    Vote2Sent,
    Cert2Formed,
    LeafDecided,
    ProposalSent,
    VidDisperse,
    BlockReconstructed,
}

/// The metrics of a view with nothing recorded yet.
pub open spec fn blank(view: u64) -> ViewMetrics {
    ViewMetrics {
        view,
        is_leader: false,
        proposal_recv_ns: None,
        state_validated_ns: None,
        vote1_sent_ns: None,
        cert1_formed_ns: None,
        vote2_sent_ns: None,
        cert2_formed_ns: None,
        leaf_decided_ns: None,
        proposal_sent_ns: None,
        vid_disperse_ns: None,
        block_reconstructed_ns: None,
    }
}

/// `m` with the timing `mark` set to `ts`; a sent proposal also marks the
/// node as the view's leader.
pub open spec fn marked(m: ViewMetrics, mark: Mark, ts: u128) -> ViewMetrics {
    match mark {
        Mark::ProposalReceived => ViewMetrics { proposal_recv_ns: Some(ts), ..m },
        Mark::StateValidated => ViewMetrics { state_validated_ns: Some(ts), ..m },
        Mark::Vote1Sent => ViewMetrics { vote1_sent_ns: Some(ts), ..m },
        Mark::Cert1Formed => ViewMetrics { cert1_formed_ns: Some(ts), ..m },
        Mark::Vote2Sent => ViewMetrics { vote2_sent_ns: Some(ts), ..m },
        Mark::Cert2Formed => ViewMetrics { cert2_formed_ns: Some(ts), ..m },
        Mark::LeafDecided => ViewMetrics { leaf_decided_ns: Some(ts), ..m },
        Mark::ProposalSent => ViewMetrics { proposal_sent_ns: Some(ts), is_leader: true, ..m },
        Mark::VidDisperse => ViewMetrics { vid_disperse_ns: Some(ts), ..m },
        Mark::BlockReconstructed => ViewMetrics { block_reconstructed_ns: Some(ts), ..m },
    }
}

/// The view an input is timed for, and which timing it fills in.
pub open spec fn input_mark(input: &ConsensusInput) -> Option<(u64, Mark)> {
    match input {
        ConsensusInput::Proposal(_, m) => Some((m.data.view, Mark::ProposalReceived)),
        ConsensusInput::StateValidated(r) => Some((r.view, Mark::StateValidated)),
        ConsensusInput::Certificate1(c, _) => Some((c.view, Mark::Cert1Formed)),
        ConsensusInput::Certificate2(c, _) => Some((c.view, Mark::Cert2Formed)),
        ConsensusInput::VidDisperseCreated(v, _) => Some((*v, Mark::VidDisperse)),
        ConsensusInput::BlockReconstructed(v, _) => Some((*v, Mark::BlockReconstructed)),
        _ => None,
    }
}

/// Which timing of the current view an output fills in.
pub open spec fn output_mark(output: &ConsensusOutput) -> Option<Mark> {
    match output {
        ConsensusOutput::SendVote1(_) => Some(Mark::Vote1Sent),
        ConsensusOutput::SendVote2(_) => Some(Mark::Vote2Sent),
        ConsensusOutput::SendProposal(_) => Some(Mark::ProposalSent),
        ConsensusOutput::LeafDecided { .. } => Some(Mark::LeafDecided),
        _ => None,
    }
}

/// The views' metrics once `input` is timed at `ts`.
pub open spec fn after_input(views: Map<u64, ViewMetrics>, input: &ConsensusInput, ts: u128) -> Map<u64, ViewMetrics> {
    match input_mark(input) {
        Some((view, mark)) => MetricsCollector::with_mark(views, view, mark, ts),
        None => views,
    }
}

/// The views' metrics once `output` is timed at `ts`, on view `current`.
pub open spec fn after_output(views: Map<u64, ViewMetrics>, current: u64, output: &ConsensusOutput, ts: u128) -> Map<u64, ViewMetrics> {
    match output_mark(output) {
        Some(mark) => MetricsCollector::with_mark(views, current, mark, ts),
        None => views,
    }
}

/// What a view's timings were before an event: its record, or a blank one.
pub open spec fn recorded(views: Map<u64, ViewMetrics>, view: u64) -> ViewMetrics {
    if views.contains_key(view) {
        views[view]
    } else {
        blank(view)
    }
}

/// Timing an output touches only the view the node is on, and there only
/// the timing the output stands for: a first vote its first-vote time, a
/// second vote its second-vote time, a sent proposal its proposal time (and
/// the node counts as the view's leader), a decision its decision time. Any
/// other output leaves every timing as it was.
pub proof fn law_output_timings(views: Map<u64, ViewMetrics>, current: u64, output: ConsensusOutput, ts: u128)
    ensures
        forall|v: u64| v != current ==> (#[trigger] after_output(views, current, &output, ts).contains_key(v)) == views.contains_key(v)
            && (views.contains_key(v) ==> after_output(views, current, &output, ts)[v] == views[v]),
        output is SendVote1 ==> after_output(views, current, &output, ts).contains_key(current)
            && after_output(views, current, &output, ts)[current] == (ViewMetrics { vote1_sent_ns: Some(ts), ..recorded(views, current) }),
        output is SendVote2 ==> after_output(views, current, &output, ts).contains_key(current)
            && after_output(views, current, &output, ts)[current] == (ViewMetrics { vote2_sent_ns: Some(ts), ..recorded(views, current) }),
        output is SendProposal ==> after_output(views, current, &output, ts).contains_key(current)
            && after_output(views, current, &output, ts)[current] == (ViewMetrics {
                proposal_sent_ns: Some(ts),
                is_leader: true,
                ..recorded(views, current)
            }),
        output is LeafDecided ==> after_output(views, current, &output, ts).contains_key(current)
            && after_output(views, current, &output, ts)[current] == (ViewMetrics { leaf_decided_ns: Some(ts), ..recorded(views, current) }),
        !(output is SendVote1 || output is SendVote2 || output is SendProposal || output is LeafDecided) ==> after_output(
            views,
            current,
            &output,
            ts,
        ) == views,
{
}

/// Timing an input touches only the view it is about, and there only the
/// timing it stands for: a proposal its arrival, a validated state its
/// validation, a first or second certificate its formation, a share
/// dispersal or a reconstructed block its time. Any other input leaves
/// every timing as it was.
pub proof fn law_input_timings(views: Map<u64, ViewMetrics>, input: ConsensusInput, ts: u128)
    ensures
        input matches ConsensusInput::Proposal(_, m) ==> after_input(views, &input, ts) == views.insert(
            m.data.view,
            (ViewMetrics { proposal_recv_ns: Some(ts), ..recorded(views, m.data.view) }),
        ),
        input matches ConsensusInput::StateValidated(r) ==> after_input(views, &input, ts) == views.insert(
            r.view,
            (ViewMetrics { state_validated_ns: Some(ts), ..recorded(views, r.view) }),
        ),
        input matches ConsensusInput::Certificate1(c, _) ==> after_input(views, &input, ts) == views.insert(
            c.view,
            (ViewMetrics { cert1_formed_ns: Some(ts), ..recorded(views, c.view) }),
        ),
        input matches ConsensusInput::Certificate2(c, _) ==> after_input(views, &input, ts) == views.insert(
            c.view,
            (ViewMetrics { cert2_formed_ns: Some(ts), ..recorded(views, c.view) }),
        ),
        input matches ConsensusInput::VidDisperseCreated(v, _) ==> after_input(views, &input, ts) == views.insert(
            v,
            (ViewMetrics { vid_disperse_ns: Some(ts), ..recorded(views, v) }),
        ),
        input matches ConsensusInput::BlockReconstructed(v, _) ==> after_input(views, &input, ts) == views.insert(
            v,
            (ViewMetrics { block_reconstructed_ns: Some(ts), ..recorded(views, v) }),
        ),
        !(input is Proposal || input is StateValidated || input is Certificate1 || input is Certificate2
            || input is VidDisperseCreated || input is BlockReconstructed) ==> after_input(views, &input, ts) == views,
{
}

/// Collects per-view timings of a benchmark node.
pub struct MetricsCollector {
    start: Instant,
    views: BTreeMap<u64, ViewMetrics>,
    node_id: u64,
    current_view: u64,
}

impl MetricsCollector {
    pub closed spec fn spec_views(&self) -> Map<u64, ViewMetrics> {
        self.views@
    }

    pub closed spec fn spec_current_view(&self) -> u64 {
        self.current_view
    }

    /// Every view's record is filed under its view.
    pub open spec fn wf(&self) -> bool {
        forall|v: u64| #[trigger] self.spec_views().contains_key(v) ==> self.spec_views()[v].view == v
    }

    pub closed spec fn spec_node_id(&self) -> u64 {
        self.node_id
    }

    /// The views' metrics with `mark` of `view` set to `ts`, starting from a
    /// blank record if the view has none.
    pub open spec fn with_mark(views: Map<u64, ViewMetrics>, view: u64, mark: Mark, ts: u128) -> Map<u64, ViewMetrics> {
        let m = if views.contains_key(view) {
            views[view]
        } else {
            blank(view)
        };
        views.insert(view, marked(m, mark, ts))
    }

    pub fn new(node_id: u64) -> (r: Self)
        ensures
            r.wf(),
            r.spec_views() == Map::<u64, ViewMetrics>::empty(),
            r.spec_node_id() == node_id,
            r.spec_current_view() == 0,
    {
        MetricsCollector { start: now(), views: BTreeMap::new(), node_id, current_view: 0 }
    }

    /// Nanoseconds since the collector started: the whole nanoseconds of
    /// the time elapsed, which the clock alone decides.
    fn elapsed_ns(&self) -> (r: u128)
        ensures
            exists|d: Duration| r == #[trigger] duration_nanos(d),
    {
        let d = elapsed_since(&self.start);
        let r = nanos_of(&d);
        assert(r == duration_nanos(d));
        r
    }

    /// Set `mark` of `view` to `ts`, creating the view's record if needed.
    fn view_mut(&mut self, view: u64, mark: Mark, ts: u128)
        requires
            old(self).wf(),
        ensures
            final(self).wf(),
            final(self).spec_views() == Self::with_mark(old(self).spec_views(), view, mark, ts),
            final(self).spec_current_view() == old(self).spec_current_view(),
            final(self).spec_node_id() == old(self).spec_node_id(),
    {
        let mut m = match self.views.get(&view) {
            Some(m) => *m,
            None => ViewMetrics {
                view,
                is_leader: false,
                proposal_recv_ns: None,
                state_validated_ns: None,
                vote1_sent_ns: None,
                cert1_formed_ns: None,
                vote2_sent_ns: None,
                cert2_formed_ns: None,
                leaf_decided_ns: None,
                proposal_sent_ns: None,
                vid_disperse_ns: None,
                block_reconstructed_ns: None,
            },
        };
        match mark {
            Mark::ProposalReceived => m.proposal_recv_ns = Some(ts),
            Mark::StateValidated => m.state_validated_ns = Some(ts),
            Mark::Vote1Sent => m.vote1_sent_ns = Some(ts),
            Mark::Cert1Formed => m.cert1_formed_ns = Some(ts),
            Mark::Vote2Sent => m.vote2_sent_ns = Some(ts),
            Mark::Cert2Formed => m.cert2_formed_ns = Some(ts),
            Mark::LeafDecided => m.leaf_decided_ns = Some(ts),
            Mark::ProposalSent => {
                m.proposal_sent_ns = Some(ts);
                m.is_leader = true;
            },
            Mark::VidDisperse => m.vid_disperse_ns = Some(ts),
            Mark::BlockReconstructed => m.block_reconstructed_ns = Some(ts),
        }
        self.views.insert(view, m);
    }

    /// Time `input` at `ts`.
    pub fn record_input(&mut self, input: &ConsensusInput, ts: u128)
        requires
            old(self).wf(),
        ensures
            final(self).wf(),
            final(self).spec_views() == after_input(old(self).spec_views(), input, ts),
            final(self).spec_current_view() == old(self).spec_current_view(),
            final(self).spec_node_id() == old(self).spec_node_id(),
    {
        match input {
            ConsensusInput::Proposal(_, m) => self.view_mut(m.data.view, Mark::ProposalReceived, ts),
            ConsensusInput::StateValidated(r) => self.view_mut(r.view, Mark::StateValidated, ts),
            ConsensusInput::Certificate1(c, _) => self.view_mut(c.view, Mark::Cert1Formed, ts),
            ConsensusInput::Certificate2(c, _) => self.view_mut(c.view, Mark::Cert2Formed, ts),
            ConsensusInput::VidDisperseCreated(v, _) => self.view_mut(*v, Mark::VidDisperse, ts),
            ConsensusInput::BlockReconstructed(v, _) => self.view_mut(*v, Mark::BlockReconstructed, ts),
            _ => {},
        }
    }

    /// Time `output` at `ts`, against the view the node is on; a view change
    /// moves that view.
    pub fn record_output(&mut self, output: &ConsensusOutput, ts: u128)
        requires
            old(self).wf(),
        ensures
            final(self).wf(),
            final(self).spec_views() == after_output(old(self).spec_views(), old(self).spec_current_view(), output, ts),
            final(self).spec_current_view() == (match output {
                ConsensusOutput::ViewChanged(v, _) => *v,
                _ => old(self).spec_current_view(),
            }),
            final(self).spec_node_id() == old(self).spec_node_id(),
    {
        let current = self.current_view;
        match output {
            ConsensusOutput::SendVote1(_) => self.view_mut(current, Mark::Vote1Sent, ts),
            ConsensusOutput::SendVote2(_) => self.view_mut(current, Mark::Vote2Sent, ts),
            ConsensusOutput::SendProposal(_) => self.view_mut(current, Mark::ProposalSent, ts),
            ConsensusOutput::LeafDecided { .. } => self.view_mut(current, Mark::LeafDecided, ts),
            ConsensusOutput::ViewChanged(v, _) => self.current_view = *v,
            _ => {},
        }
    }

    /// Record a consensus input, timed now.
    pub fn on_input(&mut self, input: &ConsensusInput)
        requires
            old(self).wf(),
        ensures
            final(self).wf(),
            exists|ts: u128| final(self).spec_views() == #[trigger] after_input(old(self).spec_views(), input, ts),
            final(self).spec_current_view() == old(self).spec_current_view(),
    {
        let ts = self.elapsed_ns();
        self.record_input(input, ts);
    }

    /// Record a consensus output, timed now.
    pub fn on_output(&mut self, output: &ConsensusOutput)
        requires
            old(self).wf(),
        ensures
            final(self).wf(),
            exists|ts: u128| final(self).spec_views() == #[trigger] after_output(old(self).spec_views(), old(self).spec_current_view(), output, ts),
            final(self).spec_current_view() == (match output {
                ConsensusOutput::ViewChanged(v, _) => *v,
                _ => old(self).spec_current_view(),
            }),
    {
        let ts = self.elapsed_ns();
        self.record_output(output, ts);
    }

    /// Whether the run has reached `target_views`: a leaf is recorded as
    /// decided in a view at or past it (or the target is zero).
    pub fn target_reached(&self, target_views: u64) -> (r: bool)
        ensures
            r == (target_views == 0 || exists|v: u64| #[trigger] self.spec_views().contains_key(v)
                && self.spec_views()[v].leaf_decided_ns is Some && v >= target_views),
    {
        let decided = self.max_decided_view();
        decided >= target_views
    }

    /// The highest view with a decided leaf recorded, or zero if none is.
    pub fn max_decided_view(&self) -> (r: u64)
        ensures
            (exists|v: u64| #[trigger] self.spec_views().contains_key(v) && self.spec_views()[v].leaf_decided_ns is Some)
                ==> {
                &&& self.spec_views().contains_key(r)
                &&& self.spec_views()[r].leaf_decided_ns is Some
                &&& forall|v: u64| #[trigger] self.spec_views().contains_key(v) && self.spec_views()[v].leaf_decided_ns is Some ==> v <= r
            },
            !(exists|v: u64| #[trigger] self.spec_views().contains_key(v) && self.spec_views()[v].leaf_decided_ns is Some)
                ==> r == 0,
    {
        let mut best: Option<u64> = None;
        let ghost all = vstd::std_specs::btree::spec_keys_iter(&self.views).remaining();
        for k in it: self.views.keys()
            invariant
                it.seq() == all,
                all.unref().to_set() == self.views@.dom(),
                match best {
                    None => forall|i: int| 0 <= i < it.index() ==> self.views@[*#[trigger] all[i]].leaf_decided_ns is None,
                    Some(b) => self.views@.contains_key(b) && self.views@[b].leaf_decided_ns is Some && forall|i: int|
                        0 <= i < it.index() && self.views@[*#[trigger] all[i]].leaf_decided_ns is Some ==> *all[i] <= b,
                },
        {
            assert(*k == *all[it.index() as int]);
            assert(all.unref().contains(*k));
            let decided = match self.views.get(k) {
                Some(m) => m.leaf_decided_ns.is_some(),
                None => false,
            };
            if decided {
                match best {
                    None => best = Some(*k),
                    Some(b) => if *k > b {
                        best = Some(*k);
                    },
                }
            }
        }
        proof {
            assert forall|j: u64| self.views@.contains_key(j) implies exists|i: int|
                0 <= i < all.len() && *#[trigger] all[i] == j by {
                assert(all.unref().to_set().contains(j));
                let i = choose|i: int| 0 <= i < all.unref().len() && all.unref()[i] == j;
                assert(*all[i] == j);
            }
        }
        match best {
            Some(b) => {
                proof {
                    assert forall|v: u64| #[trigger] self.spec_views().contains_key(v) && self.spec_views()[v].leaf_decided_ns is Some implies v <= b by {
                        let i = choose|i: int| 0 <= i < all.len() && *#[trigger] all[i] == v;
                    }
                }
                b
            },
            None => {
                proof {
                    assert forall|v: u64| #[trigger] self.spec_views().contains_key(v) implies self.spec_views()[v].leaf_decided_ns is None by {
                        let i = choose|i: int| 0 <= i < all.len() && *#[trigger] all[i] == v;
                    }
                }
                0
            },
        }
    }

    /// The recorded metrics of `view`, if any.
    pub fn view_metrics(&self, view: u64) -> (r: Option<ViewMetrics>)
        ensures
            r == (if self.spec_views().contains_key(view) {
                Some(self.spec_views()[view])
            } else {
                None
            }),
    {
        match self.views.get(&view) {
            Some(m) => Some(*m),
            None => None,
        }
    }

    /// Every recorded view's metrics, each once, in order of view.
    pub fn rows(&self) -> (r: Vec<ViewMetrics>)
        requires
            self.wf(),
        ensures
            r.len() == self.spec_views().len(),
            forall|i: int| 0 <= i < r.len() ==> self.spec_views().contains_key(#[trigger] r@[i].view)
                && self.spec_views()[r@[i].view] == r@[i],
            forall|i: int, j: int| 0 <= i < j < r.len() ==> #[trigger] r@[i].view < #[trigger] r@[j].view,
    {
        let mut out: Vec<ViewMetrics> = Vec::new();
        let ghost all = vstd::std_specs::btree::spec_keys_iter(&self.views).remaining();
        proof {
            crate::collections::lemma_increasing_keys(all);
        }
        for k in it: self.views.keys()
            invariant
                it.seq() == all,
                all.unref().to_set() == self.views@.dom(),
                all.len() == self.views@.len(),
                out.len() == it.index(),
                self.wf(),
                all.no_duplicates(),
                forall|i: int| 0 <= i < out.len() ==> #[trigger] out@[i].view == *all[i],
                forall|i: int| 0 <= i < out.len() ==> self.views@.contains_key(#[trigger] out@[i].view)
                    && self.views@[out@[i].view] == out@[i],
                forall|i: int, j: int| 0 <= i < j < all.len() ==> *all[i] < *all[j],
        {
            assert(*k == *all[it.index() as int]);
            assert(all.unref().contains(*k));
            match self.views.get(k) {
                Some(m) => {
                    out.push(*m);
                },
                None => {},
            }
        }
        out
    }

    pub fn node_id(&self) -> (r: u64)
        ensures
            r == self.spec_node_id(),
    {
        self.node_id
    }
}

} // verus!
