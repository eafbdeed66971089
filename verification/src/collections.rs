//! Pruning of view-keyed collections: everything below a bound is forgotten.
use std::collections::{BTreeMap, BTreeSet};
use vstd::prelude::*;
use vstd::std_specs::iter::IteratorSpec;

verus! {

broadcast use vstd::std_specs::btree::group_btree_axioms, vstd::laws_cmp::group_laws_cmp,
    vstd::seq_lib::group_seq_properties;

/// Keep the entries whose key is at least `bound`.
pub fn map_retain_from<V>(m: &mut BTreeMap<u64, V>, bound: u64)
    ensures
        final(m)@ == old(m)@.restrict(old(m)@.dom().filter(|k: u64| k >= bound)),
{
    let mut drop: Vec<u64> = Vec::new();
    let ghost keys = m@.dom();
    let ghost all = vstd::std_specs::btree::spec_keys_iter(&*m).remaining();
    for k in it: m.keys()
        invariant
            keys == m@.dom(),
            it.seq() == all,
            all.unref().to_set() == keys,
            forall|i: int| 0 <= i < drop.len() ==> #[trigger] drop@[i] < bound && m@.dom().contains(drop@[i]),
            forall|j: int| 0 <= j < it.index() && *it.seq()[j] < bound ==> drop@.contains(*it.seq()[j]),
        ensures
            forall|j: int| 0 <= j < all.len() && *all[j] < bound ==> drop@.contains(*all[j]),
            forall|i: int| 0 <= i < drop.len() ==> #[trigger] drop@[i] < bound && m@.dom().contains(drop@[i]),
    {
        assert(k == it.seq()[it.index() as int]);
        let ghost old_drop = drop@;
        if *k < bound {
            drop.push(*k);
            assert(drop@[drop.len() - 1] == *k);
        }
        assert(forall|x: u64| old_drop.contains(x) ==> drop@.contains(x));
    }
    assert(forall|k: u64| #[trigger] keys.contains(k) && k < bound ==> drop@.contains(k)) by {
        assert forall|k: u64| #[trigger] keys.contains(k) && k < bound implies drop@.contains(k) by {
            let flat = all.unref();
            assert(flat.to_set().contains(k));
            assert(flat.contains(k));
            let j = choose|j: int| 0 <= j < flat.len() && #[trigger] flat[j] == k;
            assert(*all[j] == k);
        }
    }
    let ghost orig = m@;
    let mut i: usize = 0;
    while i < drop.len()
        invariant
            0 <= i <= drop.len(),
            forall|x: int| 0 <= x < drop.len() ==> #[trigger] drop@[x] < bound && orig.dom().contains(drop@[x]),
            m@ == orig.restrict(orig.dom().filter(|k: u64| !drop@.subrange(0, i as int).contains(k))),
        decreases drop.len() - i,
    {
        let k = drop[i];
        let ghost before = m@;
        m.remove(&k);
        assert(m@ == before.remove(k));
        assert(drop@.subrange(0, i as int + 1) == drop@.subrange(0, i as int).push(k));
        i += 1;
        assert(m@ =~= orig.restrict(orig.dom().filter(|k: u64| !drop@.subrange(0, i as int).contains(k))));
    }
    assert(drop@.subrange(0, drop.len() as int) == drop@);
    assert(m@ =~= orig.restrict(orig.dom().filter(|k: u64| k >= bound)));
}


/// Keep the members that are at least `bound`.
pub fn set_retain_from(m: &mut BTreeSet<u64>, bound: u64)
    ensures
        final(m)@ == old(m)@.filter(|k: u64| k >= bound),
{
    let _ = set_split_below(m, bound);
}

/// Keep the members that are at least `bound`, and return the others.
pub fn set_split_below(m: &mut BTreeSet<u64>, bound: u64) -> (r: Vec<u64>)
    ensures
        final(m)@ == old(m)@.filter(|k: u64| k >= bound),
        forall|k: u64| r@.contains(k) <==> old(m)@.contains(k) && k < bound,
{
    let mut drop: Vec<u64> = Vec::new();
    let ghost keys = m@;
    let ghost all = vstd::std_specs::btree::spec_btree_keys_iter(&*m).remaining();
    for k in it: m.iter()
        invariant
            keys == m@,
            it.seq() == all,
            all.unref().to_set() == keys,
            forall|i: int| 0 <= i < drop.len() ==> #[trigger] drop@[i] < bound && m@.contains(drop@[i]),
            forall|j: int| 0 <= j < it.index() && *it.seq()[j] < bound ==> drop@.contains(*it.seq()[j]),
        ensures
            forall|j: int| 0 <= j < all.len() && *all[j] < bound ==> drop@.contains(*all[j]),
            forall|i: int| 0 <= i < drop.len() ==> #[trigger] drop@[i] < bound && m@.contains(drop@[i]),
    {
        assert(k == it.seq()[it.index() as int]);
        let ghost old_drop = drop@;
        if *k < bound {
            drop.push(*k);
            assert(drop@[drop.len() - 1] == *k);
        }
        assert(forall|x: u64| old_drop.contains(x) ==> drop@.contains(x));
    }
    assert(forall|k: u64| #[trigger] keys.contains(k) && k < bound ==> drop@.contains(k)) by {
        assert forall|k: u64| #[trigger] keys.contains(k) && k < bound implies drop@.contains(k) by {
            let flat = all.unref();
            assert(flat.to_set().contains(k));
            assert(flat.contains(k));
            let j = choose|j: int| 0 <= j < flat.len() && #[trigger] flat[j] == k;
            assert(*all[j] == k);
        }
    }
    let ghost orig = m@;
    let mut i: usize = 0;
    while i < drop.len()
        invariant
            0 <= i <= drop.len(),
            forall|x: int| 0 <= x < drop.len() ==> #[trigger] drop@[x] < bound && orig.contains(drop@[x]),
            m@ == orig.filter(|k: u64| !drop@.subrange(0, i as int).contains(k)),
        decreases drop.len() - i,
    {
        let k = drop[i];
        let ghost before = m@;
        m.remove(&k);
        assert(m@ == before.remove(k));
        assert(drop@.subrange(0, i as int + 1) == drop@.subrange(0, i as int).push(k));
        i += 1;
        assert(m@ =~= orig.filter(|k: u64| !drop@.subrange(0, i as int).contains(k)));
    }
    assert(drop@.subrange(0, drop.len() as int) == drop@);
    assert(m@ =~= orig.filter(|k: u64| k >= bound));
    drop
}


/// Keep the entries whose view, the first half of the key, is at least `bound`.
pub fn pair_map_retain_from<V>(m: &mut BTreeMap<(u64, u64), V>, bound: u64)
    ensures
        final(m)@ == old(m)@.restrict(old(m)@.dom().filter(|k: (u64, u64)| k.0 >= bound)),
{
    let mut drop: Vec<(u64, u64)> = Vec::new();
    let ghost keys = m@.dom();
    let ghost all = vstd::std_specs::btree::spec_keys_iter(&*m).remaining();
    for k in it: m.keys()
        invariant
            keys == m@.dom(),
            it.seq() == all,
            all.unref().to_set() == keys,
            forall|i: int| 0 <= i < drop.len() ==> #[trigger] drop@[i].0 < bound && m@.dom().contains(drop@[i]),
            forall|j: int| 0 <= j < it.index() && it.seq()[j].0 < bound ==> drop@.contains(*it.seq()[j]),
        ensures
            forall|j: int| 0 <= j < all.len() && all[j].0 < bound ==> drop@.contains(*all[j]),
            forall|i: int| 0 <= i < drop.len() ==> #[trigger] drop@[i].0 < bound && m@.dom().contains(drop@[i]),
    {
        assert(k == it.seq()[it.index() as int]);
        let ghost old_drop = drop@;
        if k.0 < bound {
            drop.push(*k);
            assert(drop@[drop.len() - 1] == *k);
        }
        assert(forall|x: (u64, u64)| old_drop.contains(x) ==> drop@.contains(x));
    }
    assert(forall|k: (u64, u64)| #[trigger] keys.contains(k) && k.0 < bound ==> drop@.contains(k)) by {
        assert forall|k: (u64, u64)| #[trigger] keys.contains(k) && k.0 < bound implies drop@.contains(k) by {
            let flat = all.unref();
            assert(flat.to_set().contains(k));
            assert(flat.contains(k));
            let j = choose|j: int| 0 <= j < flat.len() && #[trigger] flat[j] == k;
            assert(*all[j] == k);
        }
    }
    let ghost orig = m@;
    let mut i: usize = 0;
    while i < drop.len()
        invariant
            0 <= i <= drop.len(),
            forall|x: int| 0 <= x < drop.len() ==> #[trigger] drop@[x].0 < bound && orig.dom().contains(drop@[x]),
            m@ == orig.restrict(orig.dom().filter(|k: (u64, u64)| !drop@.subrange(0, i as int).contains(k))),
        decreases drop.len() - i,
    {
        let k = drop[i];
        let ghost before = m@;
        m.remove(&k);
        assert(m@ == before.remove(k));
        assert(drop@.subrange(0, i as int + 1) == drop@.subrange(0, i as int).push(k));
        i += 1;
        assert(m@ =~= orig.restrict(orig.dom().filter(|k: (u64, u64)| !drop@.subrange(0, i as int).contains(k))));
    }
    assert(drop@.subrange(0, drop.len() as int) == drop@);
    assert(m@ =~= orig.restrict(orig.dom().filter(|k: (u64, u64)| k.0 >= bound)));
}


/// Keep the members whose view, the first half of the pair, is at least `bound`.
pub fn pair_set_retain_from(m: &mut BTreeSet<(u64, u64)>, bound: u64)
    ensures
        final(m)@ == old(m)@.filter(|k: (u64, u64)| k.0 >= bound),
{
    let mut drop: Vec<(u64, u64)> = Vec::new();
    let ghost keys = m@;
    let ghost all = vstd::std_specs::btree::spec_btree_keys_iter(&*m).remaining();
    for k in it: m.iter()
        invariant
            keys == m@,
            it.seq() == all,
            all.unref().to_set() == keys,
            forall|i: int| 0 <= i < drop.len() ==> #[trigger] drop@[i].0 < bound && m@.contains(drop@[i]),
            forall|j: int| 0 <= j < it.index() && it.seq()[j].0 < bound ==> drop@.contains(*it.seq()[j]),
        ensures
            forall|j: int| 0 <= j < all.len() && all[j].0 < bound ==> drop@.contains(*all[j]),
            forall|i: int| 0 <= i < drop.len() ==> #[trigger] drop@[i].0 < bound && m@.contains(drop@[i]),
    {
        assert(k == it.seq()[it.index() as int]);
        let ghost old_drop = drop@;
        if k.0 < bound {
            drop.push(*k);
            assert(drop@[drop.len() - 1] == *k);
        }
        assert(forall|x: (u64, u64)| old_drop.contains(x) ==> drop@.contains(x));
    }
    assert(forall|k: (u64, u64)| #[trigger] keys.contains(k) && k.0 < bound ==> drop@.contains(k)) by {
        assert forall|k: (u64, u64)| #[trigger] keys.contains(k) && k.0 < bound implies drop@.contains(k) by {
            let flat = all.unref();
            assert(flat.to_set().contains(k));
            assert(flat.contains(k));
            let j = choose|j: int| 0 <= j < flat.len() && #[trigger] flat[j] == k;
            assert(*all[j] == k);
        }
    }
    let ghost orig = m@;
    let mut i: usize = 0;
    while i < drop.len()
        invariant
            0 <= i <= drop.len(),
            forall|x: int| 0 <= x < drop.len() ==> #[trigger] drop@[x].0 < bound && orig.contains(drop@[x]),
            m@ == orig.filter(|k: (u64, u64)| !drop@.subrange(0, i as int).contains(k)),
        decreases drop.len() - i,
    {
        let k = drop[i];
        let ghost before = m@;
        m.remove(&k);
        assert(m@ == before.remove(k));
        assert(drop@.subrange(0, i as int + 1) == drop@.subrange(0, i as int).push(k));
        i += 1;
        assert(m@ =~= orig.filter(|k: (u64, u64)| !drop@.subrange(0, i as int).contains(k)));
    }
    assert(drop@.subrange(0, drop.len() as int) == drop@);
    assert(m@ =~= orig.filter(|k: (u64, u64)| k.0 >= bound));
}


/// The keys of `m`, in increasing order.
pub fn sorted_keys<V>(m: &BTreeMap<u64, V>) -> (r: Vec<u64>)
    ensures
        forall|i: int, j: int| 0 <= i < j < r@.len() ==> r@[i] < r@[j],
        forall|k: u64| r@.contains(k) <==> m@.contains_key(k),
{
    let mut out: Vec<u64> = Vec::new();
    let ghost all = vstd::std_specs::btree::spec_keys_iter(m).remaining();
    proof {
        lemma_increasing_keys(all);
    }
    for k in it: m.keys()
        invariant
            it.seq() == all,
            all.unref().to_set() == m@.dom(),
            forall|i: int, j: int| 0 <= i < j < all.len() ==> *all[i] < *all[j],
            out@.len() == it.index(),
            forall|i: int| 0 <= i < out@.len() ==> out@[i] == *all[i],
    {
        out.push(*k);
    }
    proof {
        assert forall|i: int, j: int| 0 <= i < j < out@.len() implies out@[i] < out@[j] by {
            assert(out@[i] == *all[i]);
            assert(out@[j] == *all[j]);
        }
        assert forall|k: u64| out@.contains(k) <==> m@.contains_key(k) by {
            if m@.contains_key(k) {
                assert(all.unref().to_set().contains(k));
                let j = choose|j: int| 0 <= j < all.unref().len() && all.unref()[j] == k;
                assert(out@[j] == k);
            }
            if out@.contains(k) {
                let j = choose|j: int| 0 <= j < out@.len() && out@[j] == k;
                assert(all.unref()[j] == k);
                assert(all.unref().contains(k));
            }
        }
    }
    out
}


/// Keys that a map's iterator yields in increasing order are increasing
/// numbers.
pub proof fn lemma_increasing_keys(s: Seq<&u64>)
    requires
        vstd::std_specs::btree::increasing_seq(s),
    ensures
        forall|i: int, j: int| 0 <= i < j < s.len() ==> *s[i] < *s[j],
{
    broadcast use vstd::std_specs::btree::axiom_increasing_seq_meaning;

    assert(vstd::laws_cmp::obeys_cmp::<u64>());
    assert(vstd::laws_cmp::obeys_cmp::<&u64>());
    assert forall|i: int, j: int| 0 <= i < j < s.len() implies *s[i] < *s[j] by {
        assert(vstd::std_specs::cmp::OrdSpec::cmp_spec(&s[i], &s[j]) is Less);
    }
}


/// Whether pair `a` comes before pair `b`: by the first halves, then the
/// second.
pub open spec fn pair_lt(a: (u64, u64), b: (u64, u64)) -> bool {
    a.0 < b.0 || (a.0 == b.0 && a.1 < b.1)
}

/// Pairs that a set's iterator yields in increasing order come in order of
/// their first halves, then their second.
pub proof fn lemma_increasing_pairs(s: Seq<&(u64, u64)>)
    requires
        vstd::std_specs::btree::increasing_seq(s),
    ensures
        forall|i: int, j: int| 0 <= i < j < s.len() ==> pair_lt(*s[i], *s[j]),
{
    broadcast use vstd::std_specs::btree::axiom_increasing_seq_meaning;

    assert(vstd::laws_cmp::obeys_cmp::<u64>());
    assert(vstd::laws_cmp::obeys_cmp::<(u64, u64)>());
    assert(vstd::laws_cmp::obeys_cmp::<&(u64, u64)>());
    assert forall|i: int, j: int| 0 <= i < j < s.len() implies pair_lt(*s[i], *s[j]) by {
        assert(vstd::std_specs::cmp::OrdSpec::cmp_spec(&s[i], &s[j]) is Less);
    }
}

} // verus!
