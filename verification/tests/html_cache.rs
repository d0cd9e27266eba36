use anime_on_track::html_cache::{HtmlCache, HTML_CACHE_MAX_ENTRIES, HTML_CACHE_TTL};

#[test]
fn get_returns_fresh_entry_and_misses_unknown_url() {
    let mut c = HtmlCache::default();
    let now: u64 = 1_000_000;
    c.put("https://a/", "<html>a</html>".into(), now);
    assert_eq!(c.get("https://a/", now).as_deref(), Some("<html>a</html>"));
    assert_eq!(c.get("https://b/", now), None);
}

#[test]
fn entry_expires_after_ttl() {
    let mut c = HtmlCache::default();
    let t0: u64 = 1_000_000;
    c.put("https://a/", "x".into(), t0);
    let just_before = t0 + HTML_CACHE_TTL - 1_000;
    assert!(c.get("https://a/", just_before).is_some());
    let just_after = t0 + HTML_CACHE_TTL;
    assert_eq!(c.get("https://a/", just_after), None);
    assert_eq!(c.len(), 0);
}

#[test]
fn capacity_bound_evicts_oldest_inserted() {
    let mut c = HtmlCache::default();
    let t0: u64 = 1_000_000;
    for i in 0..HTML_CACHE_MAX_ENTRIES {
        c.put(&format!("https://u{i}/"), "x".into(), t0 + i as u64);
    }
    assert_eq!(c.len(), HTML_CACHE_MAX_ENTRIES);
    let later = t0 + 1_000;
    c.put("https://new/", "y".into(), later);
    assert_eq!(c.len(), HTML_CACHE_MAX_ENTRIES);
    assert_eq!(c.get("https://u0/", later), None);
    assert!(c.get("https://u1/", later).is_some());
    assert!(c.get("https://new/", later).is_some());
}

#[test]
fn overwriting_an_existing_url_refreshes_it_without_eviction() {
    let mut c = HtmlCache::default();
    let t0: u64 = 1_000_000;
    for i in 0..HTML_CACHE_MAX_ENTRIES {
        c.put(&format!("https://u{i}/"), "x".into(), t0 + i as u64);
    }
    let later = t0 + 1_000;
    c.put("https://u3/", "fresh".into(), later);
    assert_eq!(c.len(), HTML_CACHE_MAX_ENTRIES);
    assert_eq!(c.get("https://u3/", later).as_deref(), Some("fresh"));
    assert!(c.get("https://u0/", later).is_some(), "u0 must survive an overwrite");
}
