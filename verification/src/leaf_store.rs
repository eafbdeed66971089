//! The decided leaves that matter across epochs, by block height.
//!
//! Only epoch roots and epoch-transition blocks are kept, each with the
//! second-phase certificate that decided it, so that a peer catching up can
//! check them.
use crate::data::{Certificate2, Leaf};
use std::collections::BTreeMap;
use vstd::prelude::*;

verus! {

broadcast use vstd::std_specs::btree::group_btree_axioms, vstd::laws_cmp::group_laws_cmp;

/// A decided leaf with the certificate that decided it.
#[derive(Debug)]
pub struct DecidedLeafEntry {
    pub leaf: Leaf,
    pub cert2: Certificate2,
}

impl DecidedLeafEntry {
    /// Whether `other` holds the same leaf and certificate.
    pub open spec fn same(&self, other: &DecidedLeafEntry) -> bool {
        &&& self.leaf.proposal == other.leaf.proposal
        &&& (self.leaf.payload is Some <==> other.leaf.payload is Some)
        &&& (self.leaf.payload is Some ==> self.leaf.payload->0.bytes@ == other.leaf.payload->0.bytes@)
        &&& self.cert2 == other.cert2
    }

    pub fn duplicate(&self) -> (r: Self)
        ensures
            r.same(self),
    {
        DecidedLeafEntry { leaf: self.leaf.duplicate(), cert2: self.cert2 }
    }
}

pub struct EpochLeafStore {
    inner: BTreeMap<u64, DecidedLeafEntry>,
}

impl EpochLeafStore {
    /// The stored entries by block height.
    pub closed spec fn spec_entries(&self) -> Map<u64, DecidedLeafEntry> {
        self.inner@
    }

    pub fn new() -> (r: Self)
        ensures
            r.spec_entries() == Map::<u64, DecidedLeafEntry>::empty(),
    {
        EpochLeafStore { inner: BTreeMap::new() }
    }

    /// Store `leaf`, decided by `cert2`, under its block height, replacing
    /// what was there.
    pub fn insert(&mut self, leaf: Leaf, cert2: Certificate2)
        ensures
            final(self).spec_entries() == old(self).spec_entries().insert(
                leaf.proposal.block_header.block_number,
                DecidedLeafEntry { leaf, cert2 },
            ),
    {
        let height = leaf.proposal.block_header.block_number;
        self.inner.insert(height, DecidedLeafEntry { leaf, cert2 });
    }

    /// The entry at block height `height`, if stored.
    pub fn get(&self, height: u64) -> (r: Option<DecidedLeafEntry>)
        ensures
            r is Some <==> self.spec_entries().contains_key(height),
            r matches Some(e) ==> e.same(&self.spec_entries()[height]),
    {
        match self.inner.get(&height) {
            Some(e) => Some(e.duplicate()),
            None => None,
        }
    }

    /// Forget the entries below block height `min_height`.
    pub fn gc(&mut self, min_height: u64)
        ensures
            final(self).spec_entries() == old(self).spec_entries().restrict(
                old(self).spec_entries().dom().filter(|h: u64| h >= min_height),
            ),
    {
        crate::collections::map_retain_from(&mut self.inner, min_height);
    }
}

} // verus!
