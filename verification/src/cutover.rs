//! Taking over from the protocol this one replaces, at the decided upgrade
//! boundary.
//!
//! The replaced protocol's state is read elsewhere; here it becomes a seed:
//! the decided anchor, the leaves above it oldest first, the highest QC and
//! the first view this protocol runs.
use crate::consensus::PreCutoverSeed;
use crate::data::{Certificate1, Leaf};
use vstd::multiset::Multiset;
use vstd::prelude::*;

verus! {

broadcast use vstd::seq_lib::group_to_multiset_ensures;

/// The leaves of `s` above view `v`, counted with repetition.
pub open spec fn leaves_above(s: Seq<Leaf>, v: u64) -> Multiset<Leaf>
    decreases s.len(),
{
    if s.len() == 0 {
        Multiset::empty()
    } else {
        let rest = leaves_above(s.drop_last(), v);
        if s.last().proposal.view > v {
            rest.insert(s.last())
        } else {
            rest
        }
    }
}

/// The leaves come in order of view.
pub open spec fn sorted_by_view(s: Seq<Leaf>) -> bool {
    forall|i: int, j: int| 0 <= i < j < s.len() ==> s[i].proposal.view <= s[j].proposal.view
}

proof fn lemma_insert_to_multiset(s: Seq<Leaf>, i: int, x: Leaf)
    requires
        0 <= i <= s.len(),
    ensures
        s.insert(i, x).to_multiset() == s.to_multiset().insert(x),
{
    let t = s.insert(i, x);
    assert(t.remove(i) =~= s);
    vstd::seq_lib::to_multiset_remove(t, i);
    assert(t[i] == x);
    assert(t.contains(x));
    assert(t.to_multiset().count(x) > 0);
    assert(t.to_multiset() =~= s.to_multiset().insert(x));
}

/// The leaves of `saved` above `decided_view`, oldest first.
pub fn undecided_chain(saved: Vec<Leaf>, decided_view: u64) -> (r: Vec<Leaf>)
    ensures
        sorted_by_view(r@),
        r@.to_multiset() == leaves_above(saved@, decided_view),
{
    let mut saved = saved;
    let ghost orig = saved@;
    let mut out: Vec<Leaf> = Vec::new();
    while saved.len() > 0
        invariant
            sorted_by_view(out@),
            out@.to_multiset().add(leaves_above(saved@, decided_view)) == leaves_above(orig, decided_view),
        decreases saved.len(),
    {
        let ghost before = saved@;
        let leaf = match saved.pop() {
            Some(l) => l,
            None => {
                return out;
            },
        };
        assert(saved@ == before.drop_last());
        assert(leaf == before.last());
        if leaf.proposal.view > decided_view {
            let mut i: usize = 0;
            while i < out.len() && out[i].proposal.view <= leaf.proposal.view
                invariant
                    0 <= i <= out.len(),
                    forall|k: int| 0 <= k < i ==> out@[k].proposal.view <= leaf.proposal.view,
                decreases out.len() - i,
            {
                i = i + 1;
            }
            let ghost prev = out@;
            proof {
                lemma_insert_to_multiset(prev, i as int, leaf);
            }
            out.insert(i, leaf);
            proof {
                assert(out@ == prev.insert(i as int, leaf));
                assert forall|a: int, b: int| 0 <= a < b < out@.len() implies out@[a].proposal.view <= out@[b].proposal.view by {
                    if b < i {
                    } else if b == i {
                        assert(out@[a] == prev[a]);
                    } else if a < i {
                        assert(out@[b] == prev[b - 1]);
                        assert(out@[a] == prev[a]);
                        assert(prev[i as int].proposal.view > leaf.proposal.view);
                        assert(prev[a].proposal.view <= leaf.proposal.view);
                    } else if a == i {
                        assert(out@[b] == prev[b - 1]);
                        assert(prev[i as int].proposal.view > leaf.proposal.view);
                    } else {
                        assert(out@[a] == prev[a - 1]);
                        assert(out@[b] == prev[b - 1]);
                    }
                }
                assert(leaves_above(before, decided_view) == leaves_above(saved@, decided_view).insert(leaf));
                assert(out@.to_multiset().add(leaves_above(saved@, decided_view)) =~= prev.to_multiset().add(
                    leaves_above(before, decided_view),
                ));
            }
        } else {
            assert(leaves_above(before, decided_view) == leaves_above(saved@, decided_view));
        }
    }
    assert(leaves_above(saved@, decided_view) =~= Multiset::<Leaf>::empty());
    assert(out@.to_multiset() =~= out@.to_multiset().add(Multiset::<Leaf>::empty()));
    out
}

/// The seed taken over from the replaced protocol, given what was read from
/// it: the first view of the upgrade it decided, if it decided one; its
/// decided leaf; its saved leaves; and its highest QC. Without a decided
/// upgrade there is nothing to take over.
pub fn extract_pre_cutover_seed(
    cutover_view: Option<u64>,
    decided_anchor: Leaf,
    saved: Vec<Leaf>,
    high_qc: Certificate1,
) -> (r: Option<PreCutoverSeed>)
    ensures
        cutover_view is None ==> r is None,
        cutover_view matches Some(c) ==> r matches Some(seed) && {
            &&& seed.cutover_view == c
            &&& seed.decided_anchor == decided_anchor
            &&& seed.high_qc == Some(high_qc)
            &&& sorted_by_view(seed.undecided@)
            &&& seed.undecided@.to_multiset() == leaves_above(saved@, decided_anchor.proposal.view)
        },
{
    match cutover_view {
        None => None,
        Some(c) => {
            let decided_view = decided_anchor.proposal.view;
            let undecided = undecided_chain(saved, decided_view);
            Some(PreCutoverSeed { decided_anchor, undecided, high_qc: Some(high_qc), cutover_view: c })
        },
    }
}

} // verus!
