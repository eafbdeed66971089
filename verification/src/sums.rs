//! Sums of the values of a finite map.
use vstd::prelude::*;

verus! {

broadcast use vstd::map::group_map_axioms, vstd::set::group_set_axioms;

/// The sum of the values of `m`.
pub open spec fn map_sum(m: Map<u64, u64>) -> int
    decreases m.len(),
    when m.dom().finite()
{
    if m.len() == 0 {
        0
    } else {
        let k = m.dom().choose();
        proof {
            assert(m.dom().contains(k));
            assert(m.remove(k).dom() =~= m.dom().remove(k));
        }
        m[k] + map_sum(m.remove(k))
    }
}

/// Removing a key takes its value off the sum.
pub proof fn lemma_map_sum_remove(m: Map<u64, u64>, k: u64)
    requires
        m.dom().finite(),
        m.contains_key(k),
    ensures
        map_sum(m) == m[k] + map_sum(m.remove(k)),
    decreases m.len(),
{
    assert(m.remove(k).dom() =~= m.dom().remove(k));
    let c = m.dom().choose();
    assert(m.dom().contains(c));
    if c != k {
        assert(m.remove(c).dom() =~= m.dom().remove(c));
        lemma_map_sum_remove(m.remove(c), k);
        lemma_map_sum_remove(m.remove(k), c);
        assert(m.remove(c).remove(k) =~= m.remove(k).remove(c));
    }
}

/// Filing a value under a new key adds it to the sum.
pub proof fn lemma_map_sum_insert(m: Map<u64, u64>, k: u64, v: u64)
    requires
        m.dom().finite(),
        !m.contains_key(k),
    ensures
        map_sum(m.insert(k, v)) == v + map_sum(m),
{
    lemma_map_sum_remove(m.insert(k, v), k);
    assert(m.insert(k, v).remove(k) =~= m);
}

/// No value exceeds the sum.
pub proof fn lemma_map_sum_bounds(m: Map<u64, u64>, k: u64)
    requires
        m.dom().finite(),
        m.contains_key(k),
    ensures
        m[k] <= map_sum(m),
        map_sum(m) >= 0,
{
    lemma_map_sum_remove(m, k);
    lemma_map_sum_nonneg(m.remove(k));
}

pub proof fn lemma_map_sum_nonneg(m: Map<u64, u64>)
    requires
        m.dom().finite(),
    ensures
        map_sum(m) >= 0,
    decreases m.len(),
{
    if m.len() > 0 {
        let k = m.dom().choose();
        assert(m.dom().contains(k));
        assert(m.remove(k).dom() =~= m.dom().remove(k));
        lemma_map_sum_nonneg(m.remove(k));
    }
}

} // verus!
