use botcore::cache::Cache;

#[test]
fn entry_expires_after_ttl() {
    let mut c = Cache::new(1_000);
    c.set("k", "v".to_string(), 0);
    // Live strictly before the expiry instant.
    assert_eq!(c.get("k", 500), Some("v".to_string()));
    assert_eq!(c.get("k", 999), Some("v".to_string()));
    // At and after the expiry instant the entry is as good as absent, even
    // though nothing has physically removed it yet.
    assert_eq!(c.get("k", 1_000), None);
    assert_eq!(c.get("k", 5_000), None);
}

#[test]
fn cleanup_removes_only_expired_entries() {
    let mut c = Cache::new(1_000);
    c.set("old", "a".to_string(), 0);
    c.set("young", "b".to_string(), 900);
    c.cleanup(1_000);
    // The expired entry is gone for good; the live one is untouched.
    assert_eq!(c.get("old", 999), None);
    assert_eq!(c.get("young", 1_500), Some("b".to_string()));
}

#[test]
fn set_overwrites_and_restamps() {
    let mut c = Cache::new(1_000);
    c.set("k", "v1".to_string(), 0);
    c.set("k", "v2".to_string(), 800);
    assert_eq!(c.get("k", 900), Some("v2".to_string()));
    // The overwrite granted a fresh lifetime.
    assert_eq!(c.get("k", 1_500), Some("v2".to_string()));
    assert_eq!(c.get("k", 1_800), None);
}

#[test]
fn remove_and_clear_evict() {
    let mut c = Cache::new(1_000);
    c.set("a", "1".to_string(), 0);
    c.set("b", "2".to_string(), 0);
    c.remove("a");
    assert_eq!(c.get("a", 1), None);
    assert_eq!(c.get("b", 1), Some("2".to_string()));
    c.clear();
    assert_eq!(c.get("b", 1), None);
}

#[test]
fn get_or_insert_with_computes_once_while_live() {
    let mut c = Cache::new(1_000);
    // Cold key: the value is computed and stored.
    let v = c.get_or_insert_with("k", 0, || "computed".to_string());
    assert_eq!(v, "computed".to_string());
    // A plain read finds it without any computation.
    assert_eq!(c.get("k", 500), Some("computed".to_string()));
    // A warm read through the same entry point must not compute either.
    let v2 = c.get_or_insert_with("k", 500, || panic!("computed twice"));
    assert_eq!(v2, "computed".to_string());
}

#[test]
fn get_or_insert_with_recomputes_after_expiry() {
    let mut c = Cache::new(1_000);
    let v1 = c.get_or_insert_with("k", 0, || "first".to_string());
    assert_eq!(v1, "first".to_string());
    // Past the TTL the entry no longer answers: the closure runs again and
    // its result overwrites the stale value.
    let v2 = c.get_or_insert_with("k", 2_000, || "second".to_string());
    assert_eq!(v2, "second".to_string());
    assert_eq!(c.get("k", 2_500), Some("second".to_string()));
}
