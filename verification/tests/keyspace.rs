use rediskv::store::SetError;
use rediskv::store::SetOutcome;
use rediskv::RedisValue;
use rediskv::Store;

fn get_string(store: &Store, key: &[u8], now: u64) -> Option<Vec<u8>> {
    match store.get(key, now) {
        Some(RedisValue::String(b)) => Some(b.clone()),
        Some(_) => panic!("unexpected value type"),
        None => None,
    }
}

#[test]
fn set_then_get_reads_the_value_back() {
    let mut store = Store::new();
    let r = store.set(b"k".to_vec(), b"v".to_vec(), None, None, false, false, 100);
    assert_eq!(r, Ok(SetOutcome::Done));
    assert_eq!(get_string(&store, b"k", 100), Some(b"v".to_vec()));
    // Without a time to live the key never expires.
    assert_eq!(get_string(&store, b"k", u64::MAX), Some(b"v".to_vec()));
}

#[test]
fn px_one_millisecond_reads_as_absent_ten_later() {
    let mut store = Store::new();
    let now: u64 = 1000;
    let r = store.set(b"k".to_vec(), b"v".to_vec(), None, Some(1), false, false, now);
    assert_eq!(r, Ok(SetOutcome::Done));
    // Still live within the millisecond.
    assert_eq!(get_string(&store, b"k", now + 1), Some(b"v".to_vec()));
    // Ten milliseconds later it reads as absent.
    assert_eq!(get_string(&store, b"k", now + 10), None);
}

#[test]
fn nx_on_an_existing_key_changes_nothing() {
    let mut store = Store::new();
    store
        .set(b"k".to_vec(), b"old".to_vec(), None, None, false, false, 5)
        .unwrap();
    let r = store.set(b"k".to_vec(), b"new".to_vec(), None, None, true, false, 6);
    assert_eq!(r, Ok(SetOutcome::NotSet));
    assert_eq!(get_string(&store, b"k", 7), Some(b"old".to_vec()));
}

#[test]
fn nx_on_a_missing_key_stores() {
    let mut store = Store::new();
    let r = store.set(b"k".to_vec(), b"v".to_vec(), None, None, true, false, 5);
    assert_eq!(r, Ok(SetOutcome::Done));
    assert_eq!(get_string(&store, b"k", 5), Some(b"v".to_vec()));
}

#[test]
fn xx_on_a_missing_key_leaves_it_missing() {
    let mut store = Store::new();
    let r = store.set(b"k".to_vec(), b"v".to_vec(), None, None, false, true, 5);
    assert_eq!(r, Ok(SetOutcome::NotSet));
    assert_eq!(get_string(&store, b"k", 5), None);
}

#[test]
fn xx_on_an_existing_key_replaces() {
    let mut store = Store::new();
    store
        .set(b"k".to_vec(), b"old".to_vec(), None, None, false, false, 5)
        .unwrap();
    let r = store.set(b"k".to_vec(), b"new".to_vec(), None, None, false, true, 6);
    assert_eq!(r, Ok(SetOutcome::Done));
    assert_eq!(get_string(&store, b"k", 7), Some(b"new".to_vec()));
}

#[test]
fn a_reset_without_ttl_clears_the_deadline() {
    let mut store = Store::new();
    store
        .set(b"k".to_vec(), b"v".to_vec(), Some(10), None, false, false, 100)
        .unwrap();
    store
        .set(b"k".to_vec(), b"v2".to_vec(), None, None, false, false, 200)
        .unwrap();
    let rows = store.export();
    assert_eq!(rows.len(), 1);
    assert_eq!(rows[0].key, b"k".to_vec());
    assert_eq!(rows[0].expires_at, None);
    // Long after the old deadline would have passed, the key still reads.
    assert_eq!(get_string(&store, b"k", u64::MAX), Some(b"v2".to_vec()));
}

#[test]
fn conflicting_conditions_are_refused() {
    let mut store = Store::new();
    let r = store.set(b"k".to_vec(), b"v".to_vec(), None, None, true, true, 5);
    assert_eq!(r, Err(SetError::ConflictingConditions));
    assert_eq!(get_string(&store, b"k", 5), None);
}

#[test]
fn conflicting_durations_are_refused() {
    let mut store = Store::new();
    let r = store.set(b"k".to_vec(), b"v".to_vec(), Some(1), Some(1), false, false, 5);
    assert_eq!(r, Err(SetError::ConflictingDurations));
}

#[test]
fn zero_durations_are_refused() {
    let mut store = Store::new();
    assert_eq!(
        store.set(b"k".to_vec(), b"v".to_vec(), Some(0), None, false, false, 5),
        Err(SetError::NonPositiveDuration)
    );
    assert_eq!(
        store.set(b"k".to_vec(), b"v".to_vec(), None, Some(0), false, false, 5),
        Err(SetError::NonPositiveDuration)
    );
}

#[test]
fn keys_star_lists_every_live_key_exactly_once() {
    let mut store = Store::new();
    store
        .set(b"a".to_vec(), b"1".to_vec(), None, None, false, false, 10)
        .unwrap();
    store
        .set(b"b".to_vec(), b"2".to_vec(), None, None, false, false, 10)
        .unwrap();
    store
        .set(b"a".to_vec(), b"3".to_vec(), None, None, false, false, 11)
        .unwrap();
    // An expired key does not appear.
    store
        .set(b"gone".to_vec(), b"x".to_vec(), None, Some(1), false, false, 10)
        .unwrap();
    let mut keys = store.get_keys_matching_pattern(b"*", 1000);
    keys.sort();
    assert_eq!(keys, vec![b"a".to_vec(), b"b".to_vec()]);
}

#[test]
fn keys_glob_filters() {
    let mut store = Store::new();
    for k in [&b"user:1"[..], b"user:2", b"job:9"] {
        store
            .set(k.to_vec(), b"v".to_vec(), None, None, false, false, 1)
            .unwrap();
    }
    let mut keys = store.get_keys_matching_pattern(b"user:?", 1);
    keys.sort();
    assert_eq!(keys, vec![b"user:1".to_vec(), b"user:2".to_vec()]);
    let none = store.get_keys_matching_pattern(b"nope*", 1);
    assert!(none.is_empty());
}

#[test]
fn purge_drops_exactly_the_expired_keys() {
    let mut store = Store::new();
    store
        .set(b"stay".to_vec(), b"1".to_vec(), None, None, false, false, 10)
        .unwrap();
    store
        .set(b"later".to_vec(), b"2".to_vec(), None, Some(1000), false, false, 10)
        .unwrap();
    store
        .set(b"soon".to_vec(), b"3".to_vec(), None, Some(1), false, false, 10)
        .unwrap();
    store.purge_expired_keys(100);
    let mut keys = store.get_keys_matching_pattern(b"*", 100);
    keys.sort();
    assert_eq!(keys, vec![b"later".to_vec(), b"stay".to_vec()]);
    assert_eq!(store.export().len(), 2);
}

#[test]
fn a_get_after_the_deadline_hides_an_unswept_key() {
    let mut store = Store::new();
    store
        .set(b"k".to_vec(), b"v".to_vec(), Some(1), None, false, false, 0)
        .unwrap();
    // Deadline is at 1000 ms; the sweeper has not run.
    assert_eq!(store.export().len(), 1);
    assert_eq!(get_string(&store, b"k", 2000), None);
}

#[test]
fn a_sweep_removes_a_deadline_at_its_own_instant() {
    let mut store = Store::new();
    store
        .set(b"k".to_vec(), b"v".to_vec(), None, Some(100), false, false, 0)
        .unwrap();
    // The deadline stands at 100. A read at that very instant still sees
    // the value...
    assert_eq!(get_string(&store, b"k", 100), Some(b"v".to_vec()));
    // ...but a sweep at that instant removes the slot.
    store.purge_expired_keys(100);
    assert!(store.export().is_empty());
    assert_eq!(get_string(&store, b"k", 100), None);
}

#[test]
fn a_sweep_keeps_a_deadline_one_step_ahead() {
    let mut store = Store::new();
    store
        .set(b"k".to_vec(), b"v".to_vec(), None, Some(100), false, false, 0)
        .unwrap();
    store.purge_expired_keys(99);
    assert_eq!(store.export().len(), 1);
    assert_eq!(get_string(&store, b"k", 99), Some(b"v".to_vec()));
}
