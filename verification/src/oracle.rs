//! The transitions a node reports to a model-checking oracle, which replays
//! them against its model of the protocol.
//!
//! This module decides what is reported: the action, its arguments and the
//! model component they are scoped to. Whether an oracle is
//! listening, and the sending itself, are the caller's part.
use std::collections::BTreeMap;
use vstd::prelude::*;

verus! {

/// The component of the oracle's consensus model the consensus events target.
pub const COMPONENT: &'static str = "new-consensus-protocol";

/// The component of the oracle's fast-finality model.
pub const FAST_FINALITY_SCOPE: &'static str = "new-protocol-_fast-finality_";

/// The opaque block id logged for the honest chain in the fast-finality
/// model, whose blocks are abstract.
pub const BLOCK: u64 = 1;

/// One argument of a logged action: its name, the model domain its
/// value lies in, and the value.
pub struct OracleArg {
    pub name: &'static str,
    pub domain: &'static str,
    pub value: u64,
}

/// A transition to report: the model component, the action and its
/// arguments.
pub struct OracleAction {
    pub scope: &'static str,
    pub action: String,
    pub args: Vec<OracleArg>,
}

/// An argument named `name` in `domain` with value `value`.
pub open spec fn is_arg(a: OracleArg, name: Seq<char>, domain: Seq<char>, value: u64) -> bool {
    a.name@ == name && a.domain@ == domain && a.value == value
}

fn arg(name: &'static str, domain: &'static str, value: u64) -> (r: OracleArg)
    ensures
        r.name@ == name@,
        r.domain@ == domain@,
        r.value == value,
{
    OracleArg { name, domain, value }
}

fn consensus_action(action: &str, args: Vec<OracleArg>) -> (r: OracleAction)
    ensures
        r.scope@ == COMPONENT@,
        r.action@ == action@,
        r.args@ == args@,
{
    OracleAction { scope: COMPONENT, action: action.to_owned(), args }
}

/// A consensus transition carrying a view.
pub fn log_view(action: &str, view: u64) -> (r: OracleAction)
    ensures
        r.scope@ == COMPONENT@,
        r.action@ == action@,
        r.args@.len() == 1,
        is_arg(r.args@[0], "view"@, "VIEWS"@, view),
{
    consensus_action(action, vec![arg("view", "VIEWS", view)])
}

/// A consensus transition on a proposal. Only the leaf is logged, not its
/// parent: that is the form in which the most traces replay.
pub fn log_proposal(action: &str, leaf: u64, parent: u64) -> (r: OracleAction)
    ensures
        r.scope@ == COMPONENT@,
        r.action@ == action@,
        r.args@.len() == 1,
        is_arg(r.args@[0], "leaf"@, "LEAVES"@, leaf),
{
    consensus_action(action, vec![arg("leaf", "LEAVES", leaf)])
}

/// A consensus transition carrying a leaf.
pub fn log_leaf(action: &str, leaf: u64) -> (r: OracleAction)
    ensures
        r.scope@ == COMPONENT@,
        r.action@ == action@,
        r.args@.len() == 1,
        is_arg(r.args@[0], "leaf"@, "LEAVES"@, leaf),
{
    consensus_action(action, vec![arg("leaf", "LEAVES", leaf)])
}

pub fn receive_proposal(leaf: u64, parent: u64) -> (r: OracleAction)
    ensures
        r.action@ == "receive_proposal"@,
        r.scope@ == COMPONENT@,
        r.args@.len() == 1 && is_arg(r.args@[0], "leaf"@, "LEAVES"@, leaf),
{
    log_proposal("receive_proposal", leaf, parent)
}

pub fn reject_unsafe_proposal(leaf: u64, parent: u64) -> (r: OracleAction)
    ensures
        r.action@ == "reject_unsafe_proposal"@,
        r.scope@ == COMPONENT@,
        r.args@.len() == 1 && is_arg(r.args@[0], "leaf"@, "LEAVES"@, leaf),
{
    log_proposal("reject_unsafe_proposal", leaf, parent)
}

pub fn receive_cert1(leaf: u64) -> (r: OracleAction)
    ensures
        r.action@ == "receive_cert1"@,
        r.scope@ == COMPONENT@,
        r.args@.len() == 1 && is_arg(r.args@[0], "leaf"@, "LEAVES"@, leaf),
{
    log_leaf("receive_cert1", leaf)
}

pub fn receive_cert2(leaf: u64) -> (r: OracleAction)
    ensures
        r.action@ == "receive_cert2"@,
        r.scope@ == COMPONENT@,
        r.args@.len() == 1 && is_arg(r.args@[0], "leaf"@, "LEAVES"@, leaf),
{
    log_leaf("receive_cert2", leaf)
}

pub fn state_validated(leaf: u64) -> (r: OracleAction)
    ensures
        r.action@ == "state_validated"@,
        r.scope@ == COMPONENT@,
        r.args@.len() == 1 && is_arg(r.args@[0], "leaf"@, "LEAVES"@, leaf),
{
    log_leaf("state_validated", leaf)
}

pub fn block_reconstructed(view: u64) -> (r: OracleAction)
    ensures
        r.action@ == "block_reconstructed"@,
        r.scope@ == COMPONENT@,
        r.args@.len() == 1 && is_arg(r.args@[0], "view"@, "VIEWS"@, view),
{
    log_view("block_reconstructed", view)
}

pub fn timeout(view: u64) -> (r: OracleAction)
    ensures
        r.action@ == "timeout"@,
        r.scope@ == COMPONENT@,
        r.args@.len() == 1 && is_arg(r.args@[0], "view"@, "VIEWS"@, view),
{
    log_view("timeout", view)
}

/// `view` is the view the certificate shows timed out; the node enters the
/// view after it.
pub fn timeout_certificate(view: u64) -> (r: OracleAction)
    ensures
        r.action@ == "timeout_certificate"@,
        r.scope@ == COMPONENT@,
        r.args@.len() == 1 && is_arg(r.args@[0], "view"@, "VIEWS"@, view),
{
    log_view("timeout_certificate", view)
}

pub fn vote_1(view: u64) -> (r: OracleAction)
    ensures
        r.action@ == "vote_1"@,
        r.scope@ == COMPONENT@,
        r.args@.len() == 1 && is_arg(r.args@[0], "view"@, "VIEWS"@, view),
{
    log_view("vote_1", view)
}

pub fn vote_2_and_update_lock(view: u64) -> (r: OracleAction)
    ensures
        r.action@ == "vote_2_and_update_lock"@,
        r.scope@ == COMPONENT@,
        r.args@.len() == 1 && is_arg(r.args@[0], "view"@, "VIEWS"@, view),
{
    log_view("vote_2_and_update_lock", view)
}

pub fn decide(view: u64) -> (r: OracleAction)
    ensures
        r.action@ == "decide"@,
        r.scope@ == COMPONENT@,
        r.args@.len() == 1 && is_arg(r.args@[0], "view"@, "VIEWS"@, view),
{
    log_view("decide", view)
}

pub fn propose(view: u64) -> (r: OracleAction)
    ensures
        r.action@ == "propose"@,
        r.scope@ == COMPONENT@,
        r.args@.len() == 1 && is_arg(r.args@[0], "view"@, "VIEWS"@, view),
{
    log_view("propose", view)
}

pub fn stored(view: u64) -> (r: OracleAction)
    ensures
        r.action@ == "stored"@,
        r.scope@ == COMPONENT@,
        r.args@.len() == 1 && is_arg(r.args@[0], "view"@, "VIEWS"@, view),
{
    log_view("stored", view)
}

pub fn stored_high_qc(view: u64) -> (r: OracleAction)
    ensures
        r.action@ == "stored_high_qc"@,
        r.scope@ == COMPONENT@,
        r.args@.len() == 1 && is_arg(r.args@[0], "view"@, "VIEWS"@, view),
{
    log_view("stored_high_qc", view)
}

/// A fast-finality transition carrying a view and the honest chain's block
/// (propose, the votes, forming either certificate, deciding).
pub fn view_block(action: &str, view: u64) -> (r: OracleAction)
    ensures
        r.scope@ == FAST_FINALITY_SCOPE@,
        r.action@ == action@,
        r.args@.len() == 2,
        is_arg(r.args@[0], "view"@, "VIEWS"@, view),
        is_arg(r.args@[1], "block"@, "BLOCKS"@, BLOCK),
{
    OracleAction {
        scope: FAST_FINALITY_SCOPE,
        action: action.to_owned(),
        args: vec![arg("view", "VIEWS", view), arg("block", "BLOCKS", BLOCK)],
    }
}

/// A fast-finality transition carrying only a view (a timeout, forming a
/// timeout certificate, advancing on one).
pub fn view(action: &str, view_number: u64) -> (r: OracleAction)
    ensures
        r.scope@ == FAST_FINALITY_SCOPE@,
        r.action@ == action@,
        r.args@.len() == 1,
        is_arg(r.args@[0], "view"@, "VIEWS"@, view_number),
{
    OracleAction { scope: FAST_FINALITY_SCOPE, action: action.to_owned(), args: vec![arg("view", "VIEWS", view_number)] }
}

/// A fast-finality transition with no arguments (applying the cutover
/// seed, advancing the epoch).
pub fn bare(action: &str) -> (r: OracleAction)
    ensures
        r.scope@ == FAST_FINALITY_SCOPE@,
        r.action@ == action@,
        r.args@.len() == 0,
{
    OracleAction { scope: FAST_FINALITY_SCOPE, action: action.to_owned(), args: Vec::new() }
}

/// The number of entries of `keys` at `view`.
pub open spec fn count_at_view(keys: Seq<(u64, u64)>, view: u64) -> nat
    decreases keys.len(),
{
    if keys.len() == 0 {
        0
    } else {
        count_at_view(keys.drop_last(), view) + if keys.last().0 == view { 1nat } else { 0nat }
    }
}

/// The model's id of a leaf: twice its view plus its branch, where
/// the branch tells apart conflicting proposals of one view in the order
/// they were first seen, so the canonical chain is branch zero in an honest
/// run. Saturates at the largest id.
pub open spec fn spec_leaf_id(view: u64, branch: nat) -> u64 {
    if 2 * view + branch <= u64::MAX { (2 * view + branch) as u64 } else { u64::MAX }
}

/// The ids handed out so far, per (view, leaf commitment), and the order in
/// which those leaves were first seen.
pub struct LeafIds {
    seen: Vec<(u64, u64)>,
    ids: BTreeMap<(u64, u64), u64>,
}

impl LeafIds {
    /// The leaves seen, in the order they were first seen.
    pub closed spec fn spec_seen(&self) -> Seq<(u64, u64)> {
        self.seen@
    }

    /// The id handed out for each leaf seen.
    pub closed spec fn spec_ids(&self) -> Map<(u64, u64), u64> {
        self.ids@
    }

    /// Every leaf seen is seen once and has an id.
    pub closed spec fn wf(&self) -> bool {
        &&& self.seen@.no_duplicates()
        &&& forall|k: (u64, u64)| #[trigger] self.ids@.contains_key(k) <==> self.seen@.contains(k)
    }

    /// A registry that has seen nothing, as at the start of each trace.
    pub fn new() -> (r: Self)
        ensures
            r.wf(),
            r.spec_seen() == Seq::<(u64, u64)>::empty(),
            r.spec_ids() == Map::<(u64, u64), u64>::empty(),
    {
        LeafIds { seen: Vec::new(), ids: BTreeMap::new() }
    }
}

/// The id of the leaf with `commitment` at `view`: the one handed out
/// when it was first seen, or a new one after the branches already seen
/// at that view.
pub fn leaf_id(ids: &mut LeafIds, view: u64, commitment: u64) -> (r: u64)
    requires
        old(ids).wf(),
    ensures
        final(ids).wf(),
        old(ids).spec_ids().contains_key((view, commitment)) ==> r == old(ids).spec_ids()[(view, commitment)]
            && final(ids).spec_ids() == old(ids).spec_ids() && final(ids).spec_seen() == old(ids).spec_seen(),
        !old(ids).spec_ids().contains_key((view, commitment)) ==> {
            &&& r == spec_leaf_id(view, count_at_view(old(ids).spec_seen(), view))
            &&& final(ids).spec_ids() == old(ids).spec_ids().insert((view, commitment), r)
            &&& final(ids).spec_seen() == old(ids).spec_seen().push((view, commitment))
        },
{
    broadcast use vstd::std_specs::btree::group_btree_axioms;
    match ids.ids.get(&(view, commitment)) {
        Some(id) => return *id,
        None => {},
    }
    let mut count: u64 = 0;
    let mut i: usize = 0;
    while i < ids.seen.len()
        invariant
            0 <= i <= ids.seen.len(),
            count == count_at_view(ids.seen@.take(i as int), view),
            count <= i,
        decreases ids.seen.len() - i,
    {
        assert(ids.seen@.take(i as int + 1).drop_last() == ids.seen@.take(i as int));
        if ids.seen[i].0 == view {
            count = count + 1;
        }
        i = i + 1;
    }
    assert(ids.seen@.take(ids.seen.len() as int) == ids.seen@);
    let doubled: u64 = if view <= u64::MAX / 2 { 2 * view } else { u64::MAX };
    let id = doubled.saturating_add(count);
    let ghost old_seen = ids.seen@;
    ids.ids.insert((view, commitment), id);
    ids.seen.push((view, commitment));
    proof {
        assert(!old_seen.contains((view, commitment)));
        assert forall|k: (u64, u64)| #[trigger] ids.ids@.contains_key(k) <==> ids.seen@.contains(k) by {
            if k != (view, commitment) {
                if old_seen.contains(k) {
                    let j = choose|j: int| 0 <= j < old_seen.len() && old_seen[j] == k;
                    assert(ids.seen@[j] == k);
                }
                if ids.seen@.contains(k) {
                    let j = choose|j: int| 0 <= j < ids.seen@.len() && ids.seen@[j] == k;
                    assert(old_seen[j] == k);
                }
            } else {
                assert(ids.seen@[old_seen.len() as int] == k);
            }
        }
    }
    id
}

} // verus!
