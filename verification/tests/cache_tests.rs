use apaseh::cache::ResponseCache;
use apaseh::http::HttpResponse;

const SEC: u64 = 1_000_000_000;

#[test]
fn put_then_get_fresh() {
    let mut c = ResponseCache::new(100 * 4096, 10);
    c.put("/a".to_string(), HttpResponse::not_found(), 0);
    let r = c.get("/a", 9 * SEC).unwrap();
    assert_eq!(r.status_code, 404);
    assert_eq!(r.headers.get("Content-Length").map(|s| s.as_str()), Some("13"));
    assert!(c.get("/b", 0).is_none());
}

#[test]
fn expired_entry_is_removed() {
    let mut c = ResponseCache::new(100 * 4096, 10);
    c.put("/a".to_string(), HttpResponse::ok(), SEC);
    assert!(c.get("/a", 11 * SEC).is_none());
    assert!(c.get("/a", SEC).is_none());
}

#[test]
fn zero_ttl_never_serves() {
    let mut c = ResponseCache::new(4096, 0);
    c.put("/a".to_string(), HttpResponse::ok(), 5);
    assert!(c.get("/a", 5).is_none());
}

#[test]
fn clock_before_store_counts_as_no_age() {
    let mut c = ResponseCache::new(4096, 1);
    c.put("/a".to_string(), HttpResponse::ok(), 100);
    assert!(c.get("/a", 50).is_some());
}

#[test]
fn least_recently_used_is_evicted() {
    let mut c = ResponseCache::new(2 * 4096, 100);
    c.put("/a".to_string(), HttpResponse::new(201), 0);
    c.put("/b".to_string(), HttpResponse::new(202), 0);
    assert_eq!(c.get("/a", 0).unwrap().status_code, 201);
    c.put("/c".to_string(), HttpResponse::new(203), 0);
    assert!(c.get("/b", 0).is_none());
    assert_eq!(c.get("/a", 0).unwrap().status_code, 201);
    assert_eq!(c.get("/c", 0).unwrap().status_code, 203);
}

#[test]
fn put_replaces_existing() {
    let mut c = ResponseCache::new(4096, 100);
    c.put("/a".to_string(), HttpResponse::new(201), 0);
    c.put("/a".to_string(), HttpResponse::new(202), 0);
    assert_eq!(c.get("/a", 0).unwrap().status_code, 202);
}

#[test]
fn small_size_gets_default_capacity() {
    let mut c = ResponseCache::new(100, 100);
    for i in 0..1000 {
        c.put(format!("/{i}"), HttpResponse::ok(), 0);
    }
    assert!(c.get("/0", 0).is_some());
    c.put("/x".to_string(), HttpResponse::ok(), 0);
    assert!(c.get("/1", 0).is_none());
}

#[test]
fn entry_survives_fewer_than_capacity_other_keys() {
    let mut c = ResponseCache::new(4 * 4096, 10);
    c.put("/k".to_string(), HttpResponse::not_found(), 0);
    c.put("/a".to_string(), HttpResponse::ok(), 0);
    c.put("/b".to_string(), HttpResponse::ok(), 0);
    c.put("/a".to_string(), HttpResponse::ok(), 0);
    assert!(c.get("/z", SEC).is_none());
    let r = c.get("/k", 2 * SEC).unwrap();
    assert_eq!(r.status_code, 404);
}

#[test]
fn entry_leaves_after_capacity_other_keys() {
    let mut c = ResponseCache::new(2 * 4096, 10);
    c.put("/k".to_string(), HttpResponse::ok(), 0);
    c.put("/a".to_string(), HttpResponse::ok(), 0);
    c.put("/b".to_string(), HttpResponse::ok(), 0);
    assert!(c.get("/k", SEC).is_none());
}

#[test]
fn lookups_of_older_keys_count_towards_eviction() {
    let mut c = ResponseCache::new(3 * 4096, 10);
    c.put("/x".to_string(), HttpResponse::ok(), 0);
    c.put("/y".to_string(), HttpResponse::ok(), 0);
    c.put("/k".to_string(), HttpResponse::ok(), 0);
    assert!(c.get("/y", SEC).is_some());
    assert!(c.get("/x", SEC).is_some());
    c.put("/a".to_string(), HttpResponse::ok(), 0);
    assert!(c.get("/k", SEC).is_none());
}

#[test]
fn entry_in_fresh_cache_survives_lookups_and_fewer_stores() {
    let mut c = ResponseCache::new(3 * 4096, 10);
    c.put("/k".to_string(), HttpResponse::not_found(), 0);
    c.put("/a".to_string(), HttpResponse::ok(), 0);
    assert!(c.get("/a", SEC).is_some());
    assert!(c.get("/k", SEC).is_some());
    c.put("/b".to_string(), HttpResponse::ok(), 0);
    assert!(c.get("/a", SEC).is_some());
    assert!(c.get("/b", SEC).is_some());
    c.put("/a".to_string(), HttpResponse::ok(), 0);
    let r = c.get("/k", 2 * SEC).unwrap();
    assert_eq!(r.status_code, 404);
    assert!(c.get("/k", 11 * SEC).is_none());
    assert!(c.get("/k", 12 * SEC).is_none());
}
