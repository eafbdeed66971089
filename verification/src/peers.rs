//! Which network peers a node keeps as epochs pass: the validators of the
//! current epoch, those of the previous one for one more epoch, and those of
//! the next one early; peers pinned by configuration are never touched.
use crate::collections::sorted_keys;
use std::collections::{BTreeMap, BTreeSet};
use vstd::prelude::*;

verus! {

broadcast use vstd::std_specs::btree::group_btree_axioms, vstd::laws_cmp::group_laws_cmp;

/// How to reach a peer: its transport key and its address.
pub type ConnectInfo = (u64, u64);

/// What entering an epoch changes: the peers to add or update with their
/// connection info, the peers to remove, and the epoch to record once the
/// network took the change.
pub struct PeerPlan {
    pub add: Vec<(u64, ConnectInfo)>,
    pub remove: Vec<(u64, ConnectInfo)>,
    pub epoch: Option<u64>,
}

/// Whether `k` is wanted as a peer in an epoch: a validator of it or of the
/// next one.
pub open spec fn wanted(curr: Map<u64, Option<ConnectInfo>>, next: Map<u64, Option<ConnectInfo>>, k: u64) -> bool {
    curr.contains_key(k) || next.contains_key(k)
}

/// The connection info known for `k`, the newest epoch's first.
pub open spec fn newest_info(
    prev: Map<u64, Option<ConnectInfo>>,
    curr: Map<u64, Option<ConnectInfo>>,
    next: Map<u64, Option<ConnectInfo>>,
    k: u64,
) -> Option<ConnectInfo> {
    if next.contains_key(k) {
        next[k]
    } else if curr.contains_key(k) {
        curr[k]
    } else if prev.contains_key(k) {
        prev[k]
    } else {
        None
    }
}

/// Whether `k` is added, or updated, to `info`: it is wanted, not pinned,
/// has that connection info, and is not a peer with it already.
pub open spec fn adds(
    static_peers: Set<u64>,
    peers: Map<u64, ConnectInfo>,
    prev: Map<u64, Option<ConnectInfo>>,
    curr: Map<u64, Option<ConnectInfo>>,
    next: Map<u64, Option<ConnectInfo>>,
    k: u64,
    info: ConnectInfo,
) -> bool {
    &&& wanted(curr, next, k)
    &&& !static_peers.contains(k)
    &&& newest_info(prev, curr, next, k) == Some(info)
    &&& !(peers.contains_key(k) && peers[k] == info)
}

/// Whether the peer `k` is removed: it is not pinned, and is a validator of
/// neither the previous, the current nor the next epoch.
pub open spec fn removes(
    static_peers: Set<u64>,
    peers: Map<u64, ConnectInfo>,
    prev: Map<u64, Option<ConnectInfo>>,
    curr: Map<u64, Option<ConnectInfo>>,
    next: Map<u64, Option<ConnectInfo>>,
    k: u64,
) -> bool {
    &&& peers.contains_key(k)
    &&& !static_peers.contains(k)
    &&& !wanted(curr, next, k)
    &&& !prev.contains_key(k)
}

/// Plan entering `epoch`, having seen `seen`. An epoch already seen changes
/// nothing. A node that follows only its configured peers just records the
/// epoch. Without the epoch's validators nothing changes. Otherwise the
/// wanted peers whose connection info is new are added, and the peers that
/// are no longer validators of the previous, current or next epoch are
/// removed; pinned peers are left alone. Each peer appears once in each
/// list.
pub fn plan_epoch_peers(
    epoch: u64,
    seen: u64,
    follows_stake_table: bool,
    static_peers: &BTreeSet<u64>,
    peers: &BTreeMap<u64, ConnectInfo>,
    prev: &BTreeMap<u64, Option<ConnectInfo>>,
    curr: Option<&BTreeMap<u64, Option<ConnectInfo>>>,
    next: &BTreeMap<u64, Option<ConnectInfo>>,
) -> (r: PeerPlan)
    ensures
        epoch <= seen ==> r.add@.len() == 0 && r.remove@.len() == 0 && r.epoch is None,
        epoch > seen && !follows_stake_table ==> r.add@.len() == 0 && r.remove@.len() == 0 && r.epoch == Some(epoch),
        epoch > seen && follows_stake_table && curr is None ==> r.add@.len() == 0 && r.remove@.len() == 0
            && r.epoch is None,
        epoch > seen && follows_stake_table && curr is Some ==> {
            let c = curr.unwrap()@;
            &&& r.epoch == Some(epoch)
            &&& forall|k: u64, info: ConnectInfo| r.add@.contains((k, info)) <==> adds(
                static_peers@,
                peers@,
                prev@,
                c,
                next@,
                k,
                info,
            )
            &&& forall|k: u64, info: ConnectInfo| r.remove@.contains((k, info)) <==> removes(
                static_peers@,
                peers@,
                prev@,
                c,
                next@,
                k,
            ) && peers@[k] == info
            &&& forall|a: int, b: int| 0 <= a < b < r.add@.len() ==> r.add@[a].0 != r.add@[b].0
            &&& forall|a: int, b: int| 0 <= a < b < r.remove@.len() ==> r.remove@[a].0 != r.remove@[b].0
        },
{
    if epoch <= seen {
        return PeerPlan { add: Vec::new(), remove: Vec::new(), epoch: None };
    }
    if !follows_stake_table {
        return PeerPlan { add: Vec::new(), remove: Vec::new(), epoch: Some(epoch) };
    }
    let curr = match curr {
        None => return PeerPlan { add: Vec::new(), remove: Vec::new(), epoch: None },
        Some(c) => c,
    };
    let mut add: Vec<(u64, ConnectInfo)> = Vec::new();
    // The validators of the next epoch, then those of this one not among them.
    let next_keys = sorted_keys(next);
    let ghost mut done: Set<u64> = Set::empty();
    let mut i: usize = 0;
    while i < next_keys.len()
        invariant
            0 <= i <= next_keys.len(),
            forall|a: int, b: int| 0 <= a < b < next_keys@.len() ==> next_keys@[a] < next_keys@[b],
            forall|k: u64| next_keys@.contains(k) <==> next@.contains_key(k),
            forall|t: int| 0 <= t < i ==> done.contains(#[trigger] next_keys@[t]),
            forall|k: u64| done.contains(k) ==> exists|t: int| 0 <= t < i && next_keys@[t] == k,
            forall|k: u64, info: ConnectInfo| add@.contains((k, info)) <==> done.contains(k)
                && adds(static_peers@, peers@, prev@, curr@, next@, k, info),
            forall|a: int| 0 <= a < add@.len() ==> done.contains(#[trigger] add@[a].0),
            forall|a: int, b: int| 0 <= a < b < add@.len() ==> add@[a].0 != add@[b].0,
        decreases next_keys.len() - i,
    {
        let k = next_keys[i];
        proof {
            assert(next_keys@.contains(k));
            if done.contains(k) {
                let t = choose|t: int| 0 <= t < i && next_keys@[t] == k;
                assert(next_keys@[t] < next_keys@[i as int]);
            }
        }
        let ghost before = add@;
        let ghost mut added: Option<ConnectInfo> = None;
        if !static_peers.contains(&k) {
            match next.get(&k) {
                Some(Some(info)) => {
                    let same = match peers.get(&k) {
                        Some(cur) => cur.0 == info.0 && cur.1 == info.1,
                        None => false,
                    };
                    if !same {
                        add.push((k, *info));
                        proof {
                            added = Some(*info);
                        }
                    }
                },
                _ => {},
            }
        }
        proof {
            assert(added is Some ==> add@ == before.push((k, added->0)) && adds(static_peers@, peers@, prev@, curr@, next@, k, added->0));
            assert(added is None ==> add@ == before && forall|x: ConnectInfo| !adds(static_peers@, peers@, prev@, curr@, next@, k, x));
            let ghost old_done = done;
            done = done.insert(k);
            assert forall|a: int| 0 <= a < add@.len() implies done.contains(#[trigger] add@[a].0) by {
                if a < before.len() {
                    assert(add@[a] == before[a]);
                    assert(old_done.contains(before[a].0));
                }
            }
            assert forall|a: int, b: int| 0 <= a < b < add@.len() implies add@[a].0 != add@[b].0 by {
                if b >= before.len() {
                    assert(add@[a] == before[a]);
                    assert(old_done.contains(before[a].0));
                } else {
                    assert(add@[a] == before[a] && add@[b] == before[b]);
                }
            }
            assert forall|k2: u64, info: ConnectInfo| add@.contains((k2, info)) <==> done.contains(k2)
                && adds(static_peers@, peers@, prev@, curr@, next@, k2, info) by {
                if add@.contains((k2, info)) {
                    let a = choose|a: int| 0 <= a < add@.len() && add@[a] == (k2, info);
                    if a < before.len() {
                        assert(before[a] == (k2, info));
                        assert(before.contains((k2, info)));
                        assert(old_done.contains(before[a].0));
                    } else {
                        assert(added is Some);
                        assert(k2 == k && info == added->0);
                    }
                }
                if done.contains(k2) && adds(static_peers@, peers@, prev@, curr@, next@, k2, info) {
                    if k2 != k {
                        assert(old_done.contains(k2));
                        assert(before.contains((k2, info)));
                        let a = choose|a: int| 0 <= a < before.len() && before[a] == (k2, info);
                        assert(add@[a] == (k2, info));
                    } else {
                        assert(add@[add@.len() - 1] == (k2, info));
                    }
                }
            }
            assert forall|k2: u64| done.contains(k2) implies exists|t: int| 0 <= t < i + 1 && next_keys@[t] == k2 by {
                if k2 != k {
                    let t = choose|t: int| 0 <= t < i && next_keys@[t] == k2;
                    assert(0 <= t < i + 1 && next_keys@[t] == k2);
                } else {
                    assert(next_keys@[i as int] == k2);
                }
            }
        }
        i += 1;
    }
    proof {
        assert forall|k: u64| done.contains(k) implies next@.contains_key(k) by {
            let t = choose|t: int| 0 <= t < i && next_keys@[t] == k;
            assert(next_keys@.contains(next_keys@[t]));
        }
        assert forall|k: u64| next@.contains_key(k) implies done.contains(k) by {
            assert(next_keys@.contains(k));
            let t = choose|t: int| 0 <= t < next_keys@.len() && next_keys@[t] == k;
            assert(done.contains(next_keys@[t]));
        }
    }
    let ghost from_next = add@;
    let curr_keys = sorted_keys(curr);
    let mut j: usize = 0;
    while j < curr_keys.len()
        invariant
            0 <= j <= curr_keys.len(),
            forall|a: int, b: int| 0 <= a < b < curr_keys@.len() ==> curr_keys@[a] < curr_keys@[b],
            forall|k: u64| curr_keys@.contains(k) <==> curr@.contains_key(k),
            forall|k: u64| next@.contains_key(k) ==> done.contains(k),
            forall|t: int| 0 <= t < j ==> done.contains(#[trigger] curr_keys@[t]),
            forall|k: u64| done.contains(k) ==> next@.contains_key(k) || exists|t: int| 0 <= t < j && curr_keys@[t] == k,
            forall|k: u64, info: ConnectInfo| add@.contains((k, info)) <==> done.contains(k)
                && adds(static_peers@, peers@, prev@, curr@, next@, k, info),
            forall|a: int| 0 <= a < add@.len() ==> done.contains(#[trigger] add@[a].0),
            forall|a: int, b: int| 0 <= a < b < add@.len() ==> add@[a].0 != add@[b].0,
        decreases curr_keys.len() - j,
    {
        let k = curr_keys[j];
        proof { assert(curr_keys@.contains(k)); }
        let ghost before = add@;
        let ghost old_done = done;
        let ghost mut added: Option<ConnectInfo> = None;
        if !next.contains_key(&k) && !static_peers.contains(&k) {
            proof {
                if done.contains(k) {
                    let t = choose|t: int| 0 <= t < j && curr_keys@[t] == k;
                    assert(curr_keys@[t] < curr_keys@[j as int]);
                }
            }
            match curr.get(&k) {
                Some(Some(info)) => {
                    let same = match peers.get(&k) {
                        Some(cur) => cur.0 == info.0 && cur.1 == info.1,
                        None => false,
                    };
                    if !same {
                        add.push((k, *info));
                        proof {
                            added = Some(*info);
                        }
                    }
                },
                _ => {},
            }
        }
        proof {
            assert(added is Some ==> add@ == before.push((k, added->0)) && adds(static_peers@, peers@, prev@, curr@, next@, k, added->0)
                && !old_done.contains(k));
            assert(added is None ==> add@ == before && (old_done.contains(k) || forall|x: ConnectInfo| !adds(static_peers@, peers@, prev@, curr@, next@, k, x)));
            done = done.insert(k);
            assert forall|a: int| 0 <= a < add@.len() implies done.contains(#[trigger] add@[a].0) by {
                if a < before.len() {
                    assert(add@[a] == before[a]);
                    assert(old_done.contains(before[a].0));
                }
            }
            assert forall|a: int, b: int| 0 <= a < b < add@.len() implies add@[a].0 != add@[b].0 by {
                if b >= before.len() {
                    assert(add@[a] == before[a]);
                    assert(old_done.contains(before[a].0));
                } else {
                    assert(add@[a] == before[a] && add@[b] == before[b]);
                }
            }
            assert forall|k2: u64, info: ConnectInfo| add@.contains((k2, info)) <==> done.contains(k2)
                && adds(static_peers@, peers@, prev@, curr@, next@, k2, info) by {
                if add@.contains((k2, info)) {
                    let a = choose|a: int| 0 <= a < add@.len() && add@[a] == (k2, info);
                    if a < before.len() {
                        assert(before[a] == (k2, info));
                        assert(before.contains((k2, info)));
                        assert(old_done.contains(before[a].0));
                    } else {
                        assert(added is Some);
                        assert(k2 == k && info == added->0);
                    }
                }
                if done.contains(k2) && adds(static_peers@, peers@, prev@, curr@, next@, k2, info) {
                    if k2 != k || added is None {
                        assert(old_done.contains(k2));
                        assert(before.contains((k2, info)));
                        let a = choose|a: int| 0 <= a < before.len() && before[a] == (k2, info);
                        assert(add@[a] == (k2, info));
                    } else {
                        assert(add@[add@.len() - 1] == (k2, info));
                    }
                }
            }
            assert forall|k2: u64| done.contains(k2) implies next@.contains_key(k2) || exists|t: int| 0 <= t < j + 1
                && curr_keys@[t] == k2 by {
                if k2 == k {
                    assert(curr_keys@[j as int] == k2);
                } else if !next@.contains_key(k2) {
                    let t = choose|t: int| 0 <= t < j && curr_keys@[t] == k2;
                    assert(0 <= t < j + 1 && curr_keys@[t] == k2);
                }
            }
        }
        j += 1;
    }
    proof {
        assert forall|k: u64, info: ConnectInfo| add@.contains((k, info)) <==> adds(static_peers@, peers@, prev@, curr@, next@, k, info) by {
            if adds(static_peers@, peers@, prev@, curr@, next@, k, info) && !next@.contains_key(k) {
                assert(curr_keys@.contains(k));
                let t = choose|t: int| 0 <= t < curr_keys@.len() && curr_keys@[t] == k;
                assert(done.contains(curr_keys@[t]));
            }
        }
    }
    let mut remove: Vec<(u64, ConnectInfo)> = Vec::new();
    let peer_keys = sorted_keys(peers);
    let mut n: usize = 0;
    while n < peer_keys.len()
        invariant
            0 <= n <= peer_keys.len(),
            forall|a: int, b: int| 0 <= a < b < peer_keys@.len() ==> peer_keys@[a] < peer_keys@[b],
            forall|k: u64| peer_keys@.contains(k) <==> peers@.contains_key(k),
            forall|k: u64, info: ConnectInfo| remove@.contains((k, info)) <==> (exists|t: int| 0 <= t < n && peer_keys@[t] == k)
                && removes(static_peers@, peers@, prev@, curr@, next@, k) && peers@[k] == info,
            forall|a: int| 0 <= a < remove@.len() ==> exists|t: int| 0 <= t < n && peer_keys@[t] == #[trigger] remove@[a].0,
            forall|a: int, b: int| 0 <= a < b < remove@.len() ==> remove@[a].0 < remove@[b].0,
        decreases peer_keys.len() - n,
    {
        let k = peer_keys[n];
        proof { assert(peer_keys@.contains(k)); }
        let ghost before = remove@;
        if !static_peers.contains(&k) && !curr.contains_key(&k) && !next.contains_key(&k) && !prev.contains_key(&k) {
            match peers.get(&k) {
                Some(info) => {
                    proof {
                        assert forall|a: int| 0 <= a < before.len() implies before[a].0 < k by {
                            let t = choose|t: int| 0 <= t < n && peer_keys@[t] == before[a].0;
                            assert(peer_keys@[t] < peer_keys@[n as int]);
                        }
                    }
                    remove.push((k, *info));
                },
                None => {},
            }
        }
        proof {
            assert forall|a: int| 0 <= a < remove@.len() implies exists|t: int| 0 <= t < n + 1 && peer_keys@[t] == #[trigger] remove@[a].0 by {
                if a < before.len() {
                    assert(remove@[a] == before[a]);
                    let t = choose|t: int| 0 <= t < n && peer_keys@[t] == before[a].0;
                    assert(0 <= t < n + 1 && peer_keys@[t] == remove@[a].0);
                } else {
                    assert(peer_keys@[n as int] == remove@[a].0);
                }
            }
            assert forall|k2: u64, info: ConnectInfo| remove@.contains((k2, info)) <==> (exists|t: int| 0 <= t < n + 1 && peer_keys@[t] == k2)
                && removes(static_peers@, peers@, prev@, curr@, next@, k2) && peers@[k2] == info by {
                if remove@.contains((k2, info)) {
                    let a = choose|a: int| 0 <= a < remove@.len() && remove@[a] == (k2, info);
                    if a < before.len() {
                        assert(before.contains((k2, info)));
                    }
                }
                if (exists|t: int| 0 <= t < n + 1 && peer_keys@[t] == k2) && removes(static_peers@, peers@, prev@, curr@, next@, k2)
                    && peers@[k2] == info {
                    let t = choose|t: int| 0 <= t < n + 1 && peer_keys@[t] == k2;
                    if t < n {
                        assert(before.contains((k2, info)));
                        let a = choose|a: int| 0 <= a < before.len() && before[a] == (k2, info);
                        assert(remove@[a] == (k2, info));
                    } else {
                        assert(remove@[remove@.len() - 1] == (k2, info));
                    }
                }
            }
        }
        n += 1;
    }
    proof {
        assert forall|k: u64, info: ConnectInfo| remove@.contains((k, info)) <==> removes(static_peers@, peers@, prev@, curr@, next@, k)
            && peers@[k] == info by {
            if removes(static_peers@, peers@, prev@, curr@, next@, k) {
                assert(peer_keys@.contains(k));
            }
        }
    }
    PeerPlan { add, remove, epoch: Some(epoch) }
}

/// The peer table after removing, in order, the keys listed in `remove`.
pub open spec fn without_peers(peers: Map<u64, ConnectInfo>, remove: Seq<(u64, ConnectInfo)>) -> Map<u64, ConnectInfo>
    decreases remove.len(),
{
    if remove.len() == 0 {
        peers
    } else {
        without_peers(peers, remove.drop_last()).remove(remove.last().0)
    }
}

/// The peer table after inserting, in order, the entries listed in `add`.
pub open spec fn with_peers(peers: Map<u64, ConnectInfo>, add: Seq<(u64, ConnectInfo)>) -> Map<u64, ConnectInfo>
    decreases add.len(),
{
    if add.len() == 0 {
        peers
    } else {
        with_peers(peers, add.drop_last()).insert(add.last().0, add.last().1)
    }
}

/// Bring the peer table in line with a plan: first the removed peers leave
/// it, then the added ones enter it with their new connection info.
pub fn apply_peer_plan(peers: &mut BTreeMap<u64, ConnectInfo>, plan: &PeerPlan)
    ensures
        final(peers)@ == with_peers(without_peers(old(peers)@, plan.remove@), plan.add@),
{
    let mut i: usize = 0;
    while i < plan.remove.len()
        invariant
            0 <= i <= plan.remove.len(),
            peers@ == without_peers(old(peers)@, plan.remove@.take(i as int)),
        decreases plan.remove.len() - i,
    {
        let k = plan.remove[i].0;
        peers.remove(&k);
        proof {
            assert(plan.remove@.take(i + 1).drop_last() =~= plan.remove@.take(i as int));
        }
        i += 1;
    }
    proof {
        assert(plan.remove@.take(plan.remove@.len() as int) =~= plan.remove@);
    }
    let ghost removed = peers@;
    let mut j: usize = 0;
    while j < plan.add.len()
        invariant
            0 <= j <= plan.add.len(),
            removed == without_peers(old(peers)@, plan.remove@),
            peers@ == with_peers(removed, plan.add@.take(j as int)),
        decreases plan.add.len() - j,
    {
        let (k, info) = plan.add[j];
        peers.insert(k, info);
        proof {
            assert(plan.add@.take(j + 1).drop_last() =~= plan.add@.take(j as int));
        }
        j += 1;
    }
    proof {
        assert(plan.add@.take(plan.add@.len() as int) =~= plan.add@);
    }
}

} // verus!
