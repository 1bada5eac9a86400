//! Tests of the per-replica distributed counter store.

use limitador::distributed::DistributedCounters;
use limitador::expr::Condition;
use limitador::limit::{Counter, Limit};
use limitador::replication::CounterUpdate;
use limitador::storage::{Authorization, InMemoryStorage};

#[test]
fn local_increments_and_decisions() {
    let mut store = DistributedCounters::new("replica-a".to_string());
    let key = vec![1, 2, 3];
    assert_eq!(store.value_of(&key, 100), 0);

    let update = store.increment_local(&key, 60, 3, 100);
    assert_eq!(update.key, key);
    assert_eq!(update.expires_at, 160);
    assert_eq!(update.values, vec![("replica-a".to_string(), 3)]);
    assert_eq!(store.value_of(&key, 100), 3);

    store.increment_local(&key, 60, 2, 110);
    assert_eq!(store.value_of(&key, 110), 5);
    // Past the expiry the local count is zero, and the next increment
    // restarts the window.
    assert_eq!(store.value_of(&key, 160), 0);
    let update = store.increment_local(&key, 60, 1, 200);
    assert_eq!(update.expires_at, 260);
    assert_eq!(store.value_of(&key, 200), 1);
}

#[test]
fn inbound_updates_raise_and_are_idempotent() {
    let mut store = DistributedCounters::new("replica-a".to_string());
    let key = vec![9];
    store.increment_local(&key, 60, 3, 100);

    let inbound = CounterUpdate {
        key: key.clone(),
        values: vec![("replica-b".to_string(), 5)],
        expires_at: 170,
    };
    store.apply_update(&inbound);
    assert_eq!(store.value_of(&key, 100), 8);

    // Replaying the update, or delivering a stale lower value, changes
    // nothing already established.
    store.apply_update(&inbound);
    assert_eq!(store.value_of(&key, 100), 8);
    let stale = CounterUpdate {
        key: key.clone(),
        values: vec![("replica-b".to_string(), 2)],
        expires_at: 150,
    };
    store.apply_update(&stale);
    assert_eq!(store.value_of(&key, 100), 8);
}

#[test]
fn two_replicas_converge_through_resync() {
    let key = vec![7];
    let mut a = DistributedCounters::new("replica-a".to_string());
    let mut b = DistributedCounters::new("replica-b".to_string());
    a.increment_local(&key, 60, 3, 100);
    b.increment_local(&key, 60, 5, 100);

    // Each replica drains its counters to the other, as a resync does.
    for update in a.snapshot_all() {
        b.apply_update(&update);
    }
    for update in b.snapshot_all() {
        a.apply_update(&update);
    }
    assert_eq!(a.value_of(&key, 100), 8);
    assert_eq!(b.value_of(&key, 100), 8);
}

#[test]
fn distributed_check_and_update_publishes_on_grant() {
    let limit = || Limit::new("ns".to_string(), 10, 60, vec![], vec![]);
    let counters = vec![Counter { limit: limit(), assignment: vec![] }];
    let mut store = DistributedCounters::new("replica-a".to_string());

    let (auth, snaps, pubs) = store.check_and_update(&counters, 6, true, 100);
    assert!(matches!(auth, Authorization::Granted));
    assert_eq!(snaps.len(), 1);
    assert_eq!(snaps[0].remaining, 4);
    assert_eq!(snaps[0].expires_in, Some(60));
    assert_eq!(pubs.len(), 1);
    assert_eq!(pubs[0].expires_at, 160);
    assert_eq!(pubs[0].values, vec![("replica-a".to_string(), 6)]);

    // The second burst of 6 does not fit: nothing changes and nothing
    // is published.
    let (auth, snaps, pubs) = store.check_and_update(&counters, 6, true, 110);
    assert!(matches!(auth, Authorization::Limited(None)));
    assert_eq!(snaps[0].remaining, 0);
    assert!(pubs.is_empty());
    let key = limitador::limit::counter_key(&counters[0]);
    assert_eq!(store.value_of(&key, 110), 6);
}

#[test]
fn store_aux_operations() {
    let limit_a = || Limit::new(
        "ns".to_string(),
        10,
        60,
        vec![Condition::parse("descriptors[0].x == '1'").unwrap()],
        vec![],
    );
    let limit_b = || Limit::new("ns".to_string(), 10, 120, vec![], vec![]);

    let mut store = InMemoryStorage::new();
    let counters = vec![
        Counter { limit: limit_a(), assignment: vec![] },
        Counter { limit: limit_b(), assignment: vec![] },
    ];
    let (auth, _) = store.check_and_update(&counters, 4, false, 100);
    assert!(matches!(auth, Authorization::Granted));

    let got = store.get_counters(&vec![limit_a()]);
    assert_eq!(got.len(), 1);
    assert_eq!(got[0].count, 4);
    assert_eq!(got[0].expires_at, 160);

    store.delete_counters(&vec![limit_a()]);
    assert_eq!(store.get_counters(&vec![limit_a()]).len(), 0);
    assert_eq!(store.get_counters(&vec![limit_b()]).len(), 1);

    store.clear();
    assert_eq!(store.get_counters(&vec![limit_b()]).len(), 0);
}
