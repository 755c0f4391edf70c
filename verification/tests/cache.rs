use roxy::cache::CachedResponse;
use roxy::cache::ResponseCache;
use roxy::http_utils::HeaderMap;

fn now_ms() -> u64 {
    std::time::SystemTime::now()
        .duration_since(std::time::UNIX_EPOCH)
        .unwrap()
        .as_millis() as u64
}

fn dummy_resp(ttl: u64) -> CachedResponse {
    CachedResponse {
        status_code: 200,
        headers: HeaderMap { entries: vec![] },
        body: vec![],
        ttl,
    }
}

fn resp_with_body(body: Vec<u8>, ttl: u64) -> CachedResponse {
    CachedResponse {
        status_code: 200,
        headers: HeaderMap { entries: vec![] },
        body,
        ttl,
    }
}

#[test]
fn expiring_cache_should_not_block_when_capacity_is_reached() {
    let ttl = now_ms() + 50;
    let mut cache = ResponseCache::with_capacity(1);
    let first_key = "1".to_string();
    let second_key = "2".to_string();
    let first = cache.put(first_key.clone(), dummy_resp(ttl), ttl);
    let second = cache.put(second_key.clone(), dummy_resp(ttl), ttl);
    assert_eq!(1, cache.len());
    assert!(first);
    assert!(!second);
    assert!(cache.get(&first_key).is_some());
}

#[test]
fn cache_should_not_block_when_capacity_is_reached() {
    let ttl = now_ms() + 50;
    let mut cache = ResponseCache::with_capacity(1);
    cache.put("1".to_string(), resp_with_body(vec![2], ttl), ttl);
    cache.put("2".to_string(), resp_with_body(vec![1], ttl), ttl);
    assert_eq!(1, cache.len());
    assert_eq!(vec![2u8], cache.get("1").unwrap().body);
}

#[test]
fn expiring_cache_should_expire_value() {
    let ttl = now_ms() + 50;
    let mut cache = ResponseCache::with_capacity(1);
    let key = "1".to_string();
    cache.put(key.clone(), dummy_resp(ttl), ttl);
    assert!(cache.get(&key).is_some());
    cache.expire_head();
    assert!(cache.get(&key).is_none());
}

#[test]
fn capacity_cap_holds_over_many_puts() {
    let ttl = now_ms() + 60_000;
    let mut cache = ResponseCache::with_capacity(3);
    let mut successes: usize = 0;
    for i in 0..8 {
        if cache.put(format!("key-{}", i), dummy_resp(ttl), ttl) {
            successes += 1;
        }
    }
    assert_eq!(3, successes);
    assert_eq!(3, cache.len());
}

#[test]
fn put_refuses_a_key_already_cached() {
    let ttl = now_ms() + 60_000;
    let mut cache = ResponseCache::with_capacity(4);
    assert!(cache.put("k".to_string(), resp_with_body(vec![1], ttl), ttl));
    assert!(!cache.put("k".to_string(), resp_with_body(vec![2], ttl), ttl));
    assert_eq!(vec![1u8], cache.get("k").unwrap().body);
}

#[test]
fn expire_sweeps_all_due_entries_and_keeps_fresh_ones() {
    let t = now_ms();
    let mut cache = ResponseCache::with_capacity(4);
    cache.put("a".to_string(), dummy_resp(t + 10), t + 10);
    cache.put("b".to_string(), dummy_resp(t + 60_000), t + 60_000);
    cache.put("c".to_string(), dummy_resp(t + 20), t + 20);
    cache.expire(t + 1000);
    assert_eq!(1, cache.len());
    assert!(cache.get("a").is_none());
    assert!(cache.get("b").is_some());
    assert!(cache.get("c").is_none());
}

#[test]
fn get_does_not_filter_by_freshness() {
    let t = now_ms();
    let mut cache = ResponseCache::with_capacity(2);
    cache.put("k".to_string(), dummy_resp(t + 20), t + 20);
    let got = cache.get("k").unwrap();
    assert!(!got.expired(t));
    assert!(got.expired(t + 21));
}

#[test]
fn store_caches_only_public_max_age_200() {
    let t = now_ms();
    let mut cache = ResponseCache::with_capacity(8);
    let ok_headers = HeaderMap {
        entries: vec![("Cache-Control".to_string(), "public, max-age=1".to_string())],
    };
    assert!(cache.store("a", 200, ok_headers, vec![1], t));

    let not_public = HeaderMap {
        entries: vec![("Cache-Control".to_string(), "max-age=1".to_string())],
    };
    assert!(!cache.store("b", 200, not_public, vec![1], t));

    let no_age = HeaderMap {
        entries: vec![("Cache-Control".to_string(), "public".to_string())],
    };
    assert!(!cache.store("c", 200, no_age, vec![1], t));

    let ok_headers2 = HeaderMap {
        entries: vec![("Cache-Control".to_string(), "public, max-age=1".to_string())],
    };
    assert!(!cache.store("d", 404, ok_headers2, vec![1], t));

    assert_eq!(1, cache.len());
    let got = cache.get("a").unwrap();
    assert_eq!(t + 1000, got.ttl);
}

#[test]
fn build_cache_key_joins_path_and_query() {
    assert_eq!("/a/b", ResponseCache::build_cache_key("/a/b", ""));
    assert_eq!("/a/b?x=1", ResponseCache::build_cache_key("/a/b", "x=1"));
}
