use yao_proxy::cookie::{CookieEntry, CookieJar};
use yao_proxy::state::ProxyState;

const NOW: u64 = 1_700_000_000;

#[test]
fn store_simple_cookie() {
    let mut jar = CookieJar::new();
    let result = jar.store_cookie("session=abc123; Path=/; HttpOnly", NOW);
    assert!(!result.is_secure);
    assert!(result.browser_cookie.is_some());
    let bc = result.browser_cookie.unwrap();
    assert!(bc.contains("session=abc123"));
    assert!(bc.contains("HttpOnly"));

    let entries = jar.entries();
    assert_eq!(entries.len(), 1);
    assert_eq!(entries[0].name, "session");
    assert_eq!(entries[0].value, "abc123");
    assert!(entries[0].http_only);
}

#[test]
fn store_secure_cookie_not_forwarded() {
    let mut jar = CookieJar::new();
    let result = jar.store_cookie("__Secure-token=xyz; Path=/; Secure; HttpOnly", NOW);
    assert!(result.is_secure);
    assert!(result.browser_cookie.is_none());

    let entries = jar.entries();
    assert_eq!(entries.len(), 1);
    assert_eq!(entries[0].name, "__Secure-token");
}

#[test]
fn store_cookie_with_secure_flag() {
    let mut jar = CookieJar::new();
    let result = jar.store_cookie("id=42; Path=/; Secure", NOW);
    assert!(result.is_secure);
    assert!(result.browser_cookie.is_none());
}

#[test]
fn store_cookie_strips_domain_and_samesite_none() {
    let mut jar = CookieJar::new();
    let result = jar.store_cookie("tok=v; Path=/; Domain=example.com; SameSite=None; Secure", NOW);
    assert!(result.is_secure);

    let mut jar = CookieJar::new();
    let result = jar.store_cookie("tok=v; Path=/; Domain=example.com; SameSite=None", NOW);
    assert!(!result.is_secure);
    let bc = result.browser_cookie.unwrap();
    assert!(!bc.contains("Domain="));
    assert!(!bc.contains("SameSite=None"));
    assert!(bc.contains("SameSite=Lax"));
}

#[test]
fn store_cookie_upsert() {
    let mut jar = CookieJar::new();
    jar.store_cookie("key=old; Path=/", NOW);
    jar.store_cookie("key=new; Path=/", NOW);
    let entries = jar.entries();
    assert_eq!(entries.len(), 1);
    assert_eq!(entries[0].value, "new");
}

#[test]
fn store_cookie_max_age_zero_deletes() {
    let mut jar = CookieJar::new();
    jar.store_cookie("key=val; Path=/", NOW);
    assert_eq!(jar.cookie_count(), 1);
    jar.store_cookie("key=val; Path=/; Max-Age=0", NOW);
    assert_eq!(jar.cookie_count(), 0);
}

#[test]
fn store_cookie_empty_name_ignored() {
    let mut jar = CookieJar::new();
    let result = jar.store_cookie("=value; Path=/", NOW);
    assert!(!result.is_secure);
    assert!(result.browser_cookie.is_none());
    assert_eq!(jar.cookie_count(), 0);
}

#[test]
fn get_merged_cookies_browser_and_jar() {
    let mut jar = CookieJar::new();
    jar.store_cookie("jar_only=secret; Path=/", NOW);
    let merged = jar.get_merged_cookies("browser_cookie=visible", "/api/test", NOW);
    assert!(merged.contains("jar_only=secret"));
    assert!(merged.contains("browser_cookie=visible"));
}

#[test]
fn get_merged_cookies_jar_wins_conflict() {
    let mut jar = CookieJar::new();
    jar.store_cookie("token=from_jar; Path=/", NOW);
    let merged = jar.get_merged_cookies("token=from_browser", "/", NOW);
    assert!(merged.contains("token=from_jar"));
    assert!(!merged.contains("from_browser"));
}

#[test]
fn get_merged_cookies_path_filtering() {
    let mut jar = CookieJar::new();
    jar.store_cookie("a=1; Path=/api", NOW);
    jar.store_cookie("b=2; Path=/web", NOW);
    let merged = jar.get_merged_cookies("", "/api/data", NOW);
    assert!(merged.contains("a=1"));
    assert!(!merged.contains("b=2"));
}

#[test]
fn get_merged_cookies_empty() {
    let mut jar = CookieJar::new();
    let merged = jar.get_merged_cookies("", "/", NOW);
    assert!(merged.is_empty());
}

#[test]
fn clear_cookies_empties_jar() {
    let mut jar = CookieJar::new();
    jar.store_cookie("a=1; Path=/", NOW);
    jar.store_cookie("b=2; Path=/", NOW);
    assert_eq!(jar.cookie_count(), 2);
    jar.clear_cookies();
    assert_eq!(jar.cookie_count(), 0);
}

#[test]
fn update_proxy_state_normalizes_dashboard() {
    let mut state = ProxyState::default();
    state.update_proxy_state("http://example.com", "tok", "openapi", "dashboard/");
    let s = state.get_proxy_state();
    assert_eq!(s.dashboard, "/dashboard");

    state.update_proxy_state("http://example.com", "tok", "openapi", "/admin/");
    let s = state.get_proxy_state();
    assert_eq!(s.dashboard, "/admin");

    state.update_proxy_state("http://example.com", "tok", "openapi", "");
    let s = state.get_proxy_state();
    assert_eq!(s.dashboard, "");
}

#[test]
fn store_cookie_max_age_sets_expiry() {
    let mut jar = CookieJar::new();
    jar.store_cookie("k=v; Path=/; Max-Age=100", NOW);
    let entries = jar.entries();
    assert_eq!(entries.len(), 1);
    assert_eq!(entries[0].expires_at, NOW + 100);
}

#[test]
fn expired_cookie_never_read() {
    let mut jar = CookieJar::new();
    jar.store_cookie("k=v; Path=/; Max-Age=100", NOW);
    let merged = jar.get_merged_cookies("", "/", NOW + 200);
    assert!(!merged.contains("k=v"));
    assert_eq!(jar.cookie_count(), 0);
}

#[test]
fn store_cookie_without_attributes() {
    let mut jar = CookieJar::new();
    let result = jar.store_cookie("plain=1", NOW);
    assert!(!result.is_secure);
    assert_eq!(result.browser_cookie.unwrap(), "plain=1");
    let entries = jar.entries();
    assert_eq!(entries[0].path, "/");
    assert_eq!(entries[0].expires_at, 0);
    assert!(!entries[0].http_only);
}

#[test]
fn store_cookie_host_prefix_is_secure() {
    let mut jar = CookieJar::new();
    let result = jar.store_cookie("__Host-id=1; Path=/", NOW);
    assert!(result.is_secure);
    assert!(result.browser_cookie.is_none());
}

#[test]
fn store_cookie_invalid_max_age_ignored() {
    let mut jar = CookieJar::new();
    jar.store_cookie("k=v; Max-Age=soon", NOW);
    let entries = jar.entries();
    assert_eq!(entries.len(), 1);
    assert_eq!(entries[0].expires_at, 0);
}

#[test]
fn get_cookies_header_keeps_insertion_order() {
    let mut jar = CookieJar::new();
    jar.store_cookie("a=1; Path=/", NOW);
    jar.store_cookie("b=2; Path=/api", NOW);
    assert_eq!(jar.get_cookies_header("/api/x", NOW), "a=1; b=2");
    assert_eq!(jar.get_cookies_header("/web", NOW), "a=1");
}

#[test]
fn load_cookies_drops_duplicates_and_expired() {
    let mut jar = CookieJar::new();
    let entries = vec![
        CookieEntry {
            name: "a".to_string(),
            value: "1".to_string(),
            path: "/".to_string(),
            expires_at: 0,
            http_only: false,
        },
        CookieEntry {
            name: "a".to_string(),
            value: "2".to_string(),
            path: "/".to_string(),
            expires_at: 0,
            http_only: false,
        },
        CookieEntry {
            name: "old".to_string(),
            value: "x".to_string(),
            path: "/".to_string(),
            expires_at: NOW - 1,
            http_only: false,
        },
    ];
    jar.load_cookies(entries, NOW);
    assert_eq!(jar.cookie_count(), 1);
    assert_eq!(jar.entries()[0].value, "1");
}

#[test]
fn find_cookie_value_reads_stored_entry() {
    let mut jar = CookieJar::new();
    jar.store_cookie("__locale=zh-cn; Path=/", NOW);
    assert_eq!(jar.find_cookie_value("__locale").unwrap(), "zh-cn");
    assert!(jar.find_cookie_value("__theme").is_none());
}

#[test]
fn set_cookie_file_remembered() {
    let mut jar = CookieJar::new();
    assert!(jar.cookie_file().is_none());
    jar.set_cookie_file("cookies.json".to_string());
    assert_eq!(jar.cookie_file().as_ref().unwrap(), "cookies.json");
}

#[test]
fn proxy_state_defaults() {
    let s = ProxyState::default();
    assert!(!s.running);
    assert_eq!(s.port, 15099);
    assert_eq!(s.server_url, "");
    assert_eq!(s.token, "");
    assert_eq!(s.auth_mode, "openapi");
    assert_eq!(s.dashboard, "");
}

#[test]
fn update_proxy_state_strips_trailing_slash() {
    let mut state = ProxyState::default();
    state.update_proxy_state("https://srv.example/", "t", "openapi", "");
    assert_eq!(state.get_proxy_state().server_url, "https://srv.example");
}

#[test]
fn set_proxy_running_flips_flag() {
    let mut state = ProxyState::default();
    state.set_proxy_running(true);
    assert!(state.get_proxy_state().running);
    state.set_proxy_running(false);
    assert!(!state.get_proxy_state().running);
}

#[test]
fn merged_browser_duplicates_last_wins() {
    let mut jar = CookieJar::new();
    let merged = jar.get_merged_cookies("a=1; a=2", "/", NOW);
    assert!(merged.contains("a=2"));
    assert!(!merged.contains("a=1"));
}

#[test]
fn store_cookie_expiry_saturates() {
    let mut jar = CookieJar::new();
    jar.store_cookie("k=v; Max-Age=100", u64::MAX - 5);
    assert_eq!(jar.entries()[0].expires_at, u64::MAX);
}

#[test]
fn store_cookie_overflowing_max_age_ignored() {
    let mut jar = CookieJar::new();
    jar.store_cookie("k=v; Max-Age=99999999999999999999", NOW);
    assert_eq!(jar.entries()[0].expires_at, 0);
}
