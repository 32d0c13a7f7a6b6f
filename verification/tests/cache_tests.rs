use exa_pool::cache::ResponseCache;
use exa_pool::cache::cache_key;
use exa_pool::cache::hex16;

#[test]
fn fingerprint_is_deterministic_and_sensitive() {
    let a = cache_key(&["search", "rust verification"]);
    let b = cache_key(&["search", "rust verification"]);
    let c = cache_key(&["search", "rust verification "]);
    let d = cache_key(&["search", "rust", "verification"]);
    assert_eq!(a, b);
    assert_ne!(a, c);
    assert_ne!(a, d);
    assert_eq!(a.len(), 16);
}

#[test]
fn fingerprint_known_values() {
    // 64-bit FNV-1a over the parts, each part followed by the 0xff separator.
    assert_eq!(cache_key(&["search"]), "1cee3ac827a47862");
    assert_eq!(cache_key(&["search", "rust verification"]), "fbd7038416beea1c");
    assert_eq!(cache_key(&["content", "https://example.com"]), "614d06705280eabe");
    // No parts at all: the bare offset basis.
    assert_eq!(cache_key(&[]), "cbf29ce484222325");
}

#[test]
fn hex_rendering_is_zero_padded() {
    assert_eq!(hex16(0), "0000000000000000");
    assert_eq!(hex16(0x1a2b), "0000000000001a2b");
    assert_eq!(hex16(u64::MAX), "ffffffffffffffff");
}

#[test]
fn cached_payload_comes_back_within_ttl() {
    let mut c = ResponseCache::new();
    c.put("id1", "payload-one", 1_000);
    // Within the TTL the payload comes back unchanged.
    assert_eq!(c.get("id1", 1_000 + 60, 60), Some("payload-one".to_string()));
    // One second past the TTL it is a miss.
    assert_eq!(c.get("id1", 1_000 + 61, 60), None);
    // An identifier never written is a miss.
    assert_eq!(c.get("other", 1_000, 60), None);
}

#[test]
fn overwrite_replaces_payload_and_refreshes_age() {
    let mut c = ResponseCache::new();
    c.put("id1", "old", 1_000);
    c.put("id1", "new", 2_000);
    assert_eq!(c.len(), 1);
    assert_eq!(c.get("id1", 2_050, 60), Some("new".to_string()));
}

#[test]
fn writing_sixty_entries_keeps_the_fifty_newest() {
    let mut c = ResponseCache::new();
    for k in 0..60u64 {
        let id = format!("entry-{}", k);
        let payload = format!("payload-{}", k);
        c.put(&id, &payload, 1_000 + k);
    }
    assert_eq!(c.len(), 50);
    let huge_ttl = 1_000_000;
    // The ten oldest are gone.
    for k in 0..10u64 {
        let id = format!("entry-{}", k);
        assert_eq!(c.get(&id, 2_000, huge_ttl), None);
    }
    // The fifty most recently written are present, payloads unchanged.
    for k in 10..60u64 {
        let id = format!("entry-{}", k);
        assert_eq!(c.get(&id, 2_000, huge_ttl), Some(format!("payload-{}", k)));
    }
}

#[test]
fn eviction_runs_after_every_write() {
    let mut c = ResponseCache::new();
    for k in 0..55u64 {
        let id = format!("e{}", k);
        c.put(&id, "x", 100 + k);
        assert!(c.len() <= 50);
    }
    assert_eq!(c.len(), 50);
}
