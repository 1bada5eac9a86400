//! Tests of counter keys, the in-memory store and the CRDT value.

use limitador::crdt::CrCounterValue;
use limitador::expr::Condition;
use limitador::limit::{counter_key, limit_same_identity, Counter, Limit};
use limitador::storage::{Authorization, InMemoryStorage};

fn simple_limit(ns: &str, max: u64, seconds: u64) -> Limit {
    Limit::new(
        ns.to_string(),
        max,
        seconds,
        vec![Condition::parse("descriptors[0].x == '1'").unwrap()],
        vec![],
    )
}

fn simple_counter(ns: &str, max: u64, seconds: u64) -> Counter {
    Counter { limit: simple_limit(ns, max, seconds), assignment: vec![] }
}

#[test]
fn counter_keys_are_stable_and_distinguish_counters() {
    let a = simple_counter("ns", 5, 60);
    let b = simple_counter("ns", 7, 60);
    let c = simple_counter("ns", 5, 61);
    let d = simple_counter("other", 5, 60);
    // `max` is metadata: it does not enter the key.
    assert_eq!(counter_key(&a), counter_key(&b));
    assert_ne!(counter_key(&a), counter_key(&c));
    assert_ne!(counter_key(&a), counter_key(&d));
    // Stable across separately built equal counters.
    assert_eq!(counter_key(&a), counter_key(&simple_counter("ns", 5, 60)));
}

#[test]
fn limit_identity_ignores_max_and_name() {
    let a = simple_limit("ns", 5, 60);
    let b = simple_limit("ns", 500, 60);
    let c = simple_limit("ns", 5, 10);
    assert!(limit_same_identity(&a, &b));
    assert!(!limit_same_identity(&a, &c));
}

#[test]
fn check_and_update_is_atomic_and_bounded() {
    let mut store = InMemoryStorage::new();
    let ok = simple_counter("ns", 10, 60);
    let tight = simple_counter("tight", 3, 60);
    let counters = vec![ok, tight];

    // 3 fits both; the counts never exceed the maxima.
    let (auth, _) = store.check_and_update(&counters, 3, false, 100);
    assert!(matches!(auth, Authorization::Granted));

    // 1 more would fit the first but not the second: everything is
    // rejected, nothing is incremented.
    let (auth, _) = store.check_and_update(&counters, 1, false, 100);
    assert!(matches!(auth, Authorization::Limited(None)));

    // The first counter was left at 3, so 7 still fits it.
    let one = vec![simple_counter("ns", 10, 60)];
    let (auth, _) = store.check_and_update(&one, 7, false, 100);
    assert!(matches!(auth, Authorization::Granted));
    let (auth, _) = store.check_and_update(&one, 1, false, 100);
    assert!(matches!(auth, Authorization::Limited(None)));
}

#[test]
fn expired_window_restarts() {
    let mut store = InMemoryStorage::new();
    let counters = vec![simple_counter("ns", 2, 60)];
    let (auth, _) = store.check_and_update(&counters, 2, false, 100);
    assert!(matches!(auth, Authorization::Granted));
    let (auth, _) = store.check_and_update(&counters, 1, false, 120);
    assert!(matches!(auth, Authorization::Limited(None)));
    // 100 + 60 = 160: the window has expired, the next hit starts afresh.
    let (auth, _) = store.check_and_update(&counters, 2, false, 160);
    assert!(matches!(auth, Authorization::Granted));
}

#[test]
fn limited_carries_the_first_exceeded_name() {
    let mut store = InMemoryStorage::new();
    let named = Counter {
        limit: Limit::new_named(
            "ns".to_string(),
            "per-user".to_string(),
            0,
            60,
            vec![],
            vec![],
        ),
        assignment: vec![],
    };
    let (auth, _) = store.check_and_update(&vec![named], 1, false, 100);
    match auth {
        Authorization::Limited(name) => assert_eq!(name, Some("per-user".to_string())),
        Authorization::Granted => panic!("expected a limited outcome"),
    }
}

#[test]
fn crdt_increment_and_value() {
    let mut v = CrCounterValue::new(60, 160);
    v.increment(&"a".to_string(), 3, 100);
    v.increment(&"a".to_string(), 2, 110);
    v.increment(&"b".to_string(), 5, 120);
    assert_eq!(v.value(), 10);
}

#[test]
fn crdt_expiry_resets_contributions() {
    let mut v = CrCounterValue::new(60, 160);
    v.increment(&"a".to_string(), 3, 100);
    // At 160 the window has expired: the next increment re-initializes it.
    v.increment(&"a".to_string(), 2, 160);
    assert_eq!(v.value(), 2);
    assert_eq!(v.snapshot().0, 220);
}

#[test]
fn crdt_merge_is_per_actor_max_and_idempotent() {
    let mut x = CrCounterValue::new(60, 160);
    x.increment(&"a".to_string(), 3, 100);
    let mut y = CrCounterValue::new(60, 170);
    y.increment(&"a".to_string(), 1, 100);
    y.increment(&"b".to_string(), 5, 100);

    x.merge(&y);
    assert_eq!(x.value(), 8);  // max(3, 1) + 5
    assert_eq!(x.snapshot().0, 170);

    // Replaying the same merge changes nothing.
    x.merge(&y);
    assert_eq!(x.value(), 8);
}

#[test]
fn crdt_disjoint_merge_sums() {
    let mut x = CrCounterValue::new(60, 160);
    x.increment(&"a".to_string(), 3, 100);
    let mut y = CrCounterValue::new(60, 160);
    y.increment(&"b".to_string(), 5, 100);
    x.merge(&y);
    assert_eq!(x.value(), 3 + 5);
}
