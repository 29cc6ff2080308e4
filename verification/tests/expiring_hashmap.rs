use cpen431::expiring_hashmap::ExpiringHashMap;

#[test]
fn entries_expire_after_the_time_to_live() {
    let mut m: ExpiringHashMap<u64, u64> = ExpiringHashMap::new(500);
    assert_eq!(m.insert_at(1, 2, 1_000), None);
    // Live up to and including the last nanosecond of the time to live.
    assert_eq!(m.get_at(&1, 1_000), Some(&2));
    assert_eq!(m.get_at(&1, 1_500), Some(&2));
    // That lookup stamped the entry anew.
    assert_eq!(m.get_at(&1, 2_000), Some(&2));
    assert_eq!(m.get_at(&1, 2_501), None);
    // An expired entry stays expired: the failed lookup did not stamp it.
    assert_eq!(m.get_at(&1, 2_400), Some(&2));
    assert_eq!(m.get_at(&1, 2_901), None);
}

#[test]
fn expired_lookup_does_not_refresh() {
    let mut m: ExpiringHashMap<u64, u64> = ExpiringHashMap::new(100);
    m.insert_at(1, 2, 0);
    assert_eq!(m.get_at(&1, 101), None);
    assert_eq!(m.get_at(&1, 150), None);
    assert_eq!(m.get_at(&1, 100), Some(&2));
}

#[test]
fn unknown_keys_are_absent() {
    let mut m: ExpiringHashMap<u64, u64> = ExpiringHashMap::new(500);
    assert_eq!(m.get_at(&1, 0), None);
    m.insert_at(1, 2, 0);
    assert_eq!(m.get_at(&2, 0), None);
    assert_eq!(m.get_at(&1, 0), Some(&2));
}

#[test]
fn insert_replaces_and_returns_the_old_value() {
    let mut m: ExpiringHashMap<u64, String> = ExpiringHashMap::new(10);
    assert_eq!(m.insert_at(1, "a".to_string(), 0), None);
    assert_eq!(m.insert_at(2, "b".to_string(), 0), None);
    assert_eq!(m.insert_at(1, "c".to_string(), 5), Some("a".to_string()));
    assert_eq!(m.get_at(&1, 15), Some(&"c".to_string()));
    assert_eq!(m.get_at(&2, 10), Some(&"b".to_string()));
    // The old value is returned even when it had expired, and the new one is
    // live.
    assert_eq!(m.insert_at(2, "d".to_string(), 1_000), Some("b".to_string()));
    assert_eq!(m.get_at(&2, 1_010), Some(&"d".to_string()));
    assert_eq!(m.get_at(&1, 1_010), None);
}

#[test]
fn a_clock_that_runs_back_keeps_entries_live() {
    let mut m: ExpiringHashMap<u64, u64> = ExpiringHashMap::new(10);
    m.insert_at(1, 2, 1_000);
    assert_eq!(m.get_at(&1, 5), Some(&2));
    assert_eq!(m.get_at(&1, 15), Some(&2));
    assert_eq!(m.get_at(&1, 26), None);
}

#[test]
fn zero_time_to_live() {
    let mut m: ExpiringHashMap<u64, u64> = ExpiringHashMap::new(0);
    m.insert_at(1, 2, 7);
    assert_eq!(m.get_at(&1, 7), Some(&2));
    assert_eq!(m.get_at(&1, 8), None);
}

#[test]
fn many_keys() {
    let mut m: ExpiringHashMap<u128, u64> = ExpiringHashMap::new(1_000);
    for k in 0..1_000u64 {
        assert_eq!(m.insert_at(k as u128, k, k as u128), None);
    }
    for k in 0..1_000u64 {
        assert_eq!(m.insert_at(k as u128, k + 1, 1_000), Some(k));
    }
    for k in 0..1_000u64 {
        assert_eq!(m.get_at(&(k as u128), 2_000), Some(&(k + 1)));
    }
}

#[test]
fn with_the_real_clock() {
    let mut m: ExpiringHashMap<u64, u64> = ExpiringHashMap::new(3_600_000_000_000);
    assert_eq!(m.insert(1, 2), None);
    assert_eq!(m.get(&1), Some(&2));
    assert_eq!(m.insert(1, 3), Some(2));
    assert_eq!(m.get(&1), Some(&3));
    assert_eq!(m.get(&2), None);
    let a = m.now();
    let b = m.now();
    assert!(a <= b);
}
