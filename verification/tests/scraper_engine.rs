use anime_on_track::scraper_engine::is_safe_external_url;

#[test]
fn allows_ordinary_https_and_http_mirrors() {
    assert!(is_safe_external_url("https://example.com/directorio"));
    assert!(is_safe_external_url("http://some-mirror.example/path?x=1"));
}

#[test]
fn rejects_non_http_schemes() {
    assert!(!is_safe_external_url("file:///C:/Windows/System32/config"));
    assert!(!is_safe_external_url("data:text/html,<script>1</script>"));
    assert!(!is_safe_external_url("ftp://example.com/x"));
}

#[test]
fn rejects_localhost_and_loopback() {
    assert!(!is_safe_external_url("http://localhost/"));
    assert!(!is_safe_external_url("http://LOCALHOST:8080/"));
    assert!(!is_safe_external_url("http://127.0.0.1/"));
    assert!(!is_safe_external_url("http://[::1]/"));
}

#[test]
fn rejects_private_and_link_local_ipv4_ranges() {
    assert!(!is_safe_external_url("http://10.0.0.5/"));
    assert!(!is_safe_external_url("http://172.16.3.4/"));
    assert!(!is_safe_external_url("http://192.168.1.1/"));
    assert!(!is_safe_external_url("http://169.254.169.254/"));
}

#[test]
fn rejects_unique_local_and_link_local_ipv6() {
    assert!(!is_safe_external_url("http://[fc00::1]/"));
    assert!(!is_safe_external_url("http://[fe80::1]/"));
}

#[test]
fn rejects_unparseable_urls() {
    assert!(!is_safe_external_url("not a url at all"));
    assert!(!is_safe_external_url(""));
}
