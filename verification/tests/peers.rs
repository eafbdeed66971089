use hotshot_new_protocol::peers::{apply_peer_plan, plan_epoch_peers, ConnectInfo};
use std::collections::{BTreeMap, BTreeSet};

fn table(entries: &[(u64, Option<ConnectInfo>)]) -> BTreeMap<u64, Option<ConnectInfo>> {
    entries.iter().cloned().collect()
}

#[test]
fn an_epoch_already_seen_changes_nothing() {
    let plan = plan_epoch_peers(3, 3, true, &BTreeSet::new(), &BTreeMap::new(), &BTreeMap::new(), Some(&table(&[(1, Some((1, 1)))])), &BTreeMap::new());
    assert!(plan.add.is_empty());
    assert!(plan.remove.is_empty());
    assert_eq!(plan.epoch, None);
}

#[test]
fn a_node_on_static_peers_only_records_the_epoch() {
    let plan = plan_epoch_peers(4, 3, false, &BTreeSet::new(), &BTreeMap::new(), &BTreeMap::new(), Some(&table(&[(1, Some((1, 1)))])), &BTreeMap::new());
    assert!(plan.add.is_empty());
    assert!(plan.remove.is_empty());
    assert_eq!(plan.epoch, Some(4));
}

#[test]
fn without_the_stake_table_nothing_changes() {
    let plan = plan_epoch_peers(4, 3, true, &BTreeSet::new(), &BTreeMap::new(), &BTreeMap::new(), None, &BTreeMap::new());
    assert!(plan.add.is_empty());
    assert!(plan.remove.is_empty());
    assert_eq!(plan.epoch, None);
}

#[test]
fn peers_follow_the_previous_current_and_next_epochs() {
    // 1: static peer; 2: leaving validator of the previous epoch; 3: gone for
    // two epochs; 4: current validator with unchanged info; 5: current
    // validator with new info in the next epoch; 6: joins next epoch; 7:
    // current validator without connection info.
    let statics: BTreeSet<u64> = [1].into_iter().collect();
    let peers: BTreeMap<u64, ConnectInfo> =
        [(1, (10, 10)), (2, (20, 20)), (3, (30, 30)), (4, (40, 40)), (5, (50, 50))].into_iter().collect();
    let prev = table(&[(2, Some((20, 20))), (4, Some((40, 40)))]);
    let curr = table(&[(1, Some((11, 11))), (4, Some((40, 40))), (5, Some((50, 50))), (7, None)]);
    let next = table(&[(5, Some((55, 55))), (6, Some((60, 60)))]);
    let plan = plan_epoch_peers(8, 7, true, &statics, &peers, &prev, Some(&curr), &next);
    assert_eq!(plan.epoch, Some(8));
    let mut added = plan.add.clone();
    added.sort();
    assert_eq!(added, vec![(5, (55, 55)), (6, (60, 60))]);
    assert_eq!(plan.remove, vec![(3, (30, 30))]);

    let mut table_now = peers.clone();
    apply_peer_plan(&mut table_now, &plan);
    let expected: BTreeMap<u64, ConnectInfo> =
        [(1, (10, 10)), (2, (20, 20)), (4, (40, 40)), (5, (55, 55)), (6, (60, 60))].into_iter().collect();
    assert_eq!(table_now, expected);
}
