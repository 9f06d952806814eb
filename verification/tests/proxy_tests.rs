use yao_proxy::cookie::CookieJar;
use yao_proxy::pipeline::{
    local_base_for, not_configured_body, plan_upstream_request, plan_upstream_response,
    UpstreamPlan,
};
use yao_proxy::routing::{route_for, Route};
use yao_proxy::state::ProxyState;

const NOW: u64 = 1_700_000_000;

fn configured_state() -> ProxyState {
    let mut state = ProxyState::default();
    state.update_proxy_state("https://srv.example", "tok", "openapi", "");
    state
}

#[test]
fn router_dispatch_table() {
    assert_eq!(route_for("/__yao_desktop/window/fullscreen"), Route::Desktop);
    assert_eq!(route_for("/__yao_bridge"), Route::Bridge);
    assert_eq!(route_for("/__yao_admin_root/index.html"), Route::StaticAsset);
    assert_eq!(route_for("/__yao_admin_root/"), Route::StaticAsset);
    assert_eq!(route_for("/__yao_admin_root"), Route::RedirectAdminRoot);
    assert_eq!(route_for("/"), Route::RedirectRoot);
    assert_eq!(route_for("/v1/users"), Route::Upstream);
    assert_eq!(route_for("/__yao_bridge2"), Route::Upstream);
}

#[test]
fn local_base_formats_port() {
    assert_eq!(local_base_for(15099), "http://127.0.0.1:15099");
    assert_eq!(local_base_for(80), "http://127.0.0.1:80");
}

#[test]
fn request_plan_rejected_without_server_url() {
    let state = ProxyState::default();
    let mut jar = CookieJar::new();
    let plan = plan_upstream_request(&state, &mut jar, "/api", &Vec::new(), NOW);
    assert!(matches!(plan, UpstreamPlan::NotConfigured));
    assert_eq!(not_configured_body(), "Proxy server URL not configured");
}

#[test]
fn request_plan_rewrites_headers_and_injects_auth() {
    let state = configured_state();
    let mut jar = CookieJar::new();
    jar.store_cookie("b=2; Path=/", NOW);
    let headers = vec![
        ("host".to_string(), "127.0.0.1:15099".to_string()),
        ("origin".to_string(), "http://127.0.0.1:15099".to_string()),
        ("referer".to_string(), "http://127.0.0.1:15099/page".to_string()),
        ("cookie".to_string(), "a=1".to_string()),
        ("authorization".to_string(), "Basic xyz".to_string()),
        ("x-custom".to_string(), "v".to_string()),
    ];
    let plan = plan_upstream_request(&state, &mut jar, "/api?x=1", &headers, NOW);
    match plan {
        UpstreamPlan::Forward { target_url, headers: out } => {
            assert_eq!(target_url, "https://srv.example/api?x=1");
            assert!(!out.iter().any(|(n, _)| n == "host"));
            assert!(out.contains(&("Origin".to_string(), "https://srv.example".to_string())));
            assert!(out.contains(&("Referer".to_string(), "https://srv.example/page".to_string())));
            assert!(out.contains(&("x-custom".to_string(), "v".to_string())));
            // the configured token overrides the client's Authorization
            let auth: Vec<_> = out
                .iter()
                .filter(|(n, _)| n.eq_ignore_ascii_case("authorization"))
                .collect();
            assert_eq!(auth.len(), 1);
            assert_eq!(auth[0].1, "Bearer tok");
            let cookie = out.iter().find(|(n, _)| n == "Cookie").expect("merged cookie");
            assert!(cookie.1.contains("a=1"));
            assert!(cookie.1.contains("b=2"));
        },
        UpstreamPlan::NotConfigured => panic!("expected a forward plan"),
    }
}

#[test]
fn client_authorization_kept_without_token() {
    let mut state = ProxyState::default();
    state.update_proxy_state("https://srv.example", "", "openapi", "");
    let mut jar = CookieJar::new();
    let headers = vec![("authorization".to_string(), "Basic xyz".to_string())];
    let plan = plan_upstream_request(&state, &mut jar, "/api", &headers, NOW);
    match plan {
        UpstreamPlan::Forward { headers: out, .. } => {
            let auth: Vec<_> = out
                .iter()
                .filter(|(n, _)| n.eq_ignore_ascii_case("authorization"))
                .collect();
            assert_eq!(auth.len(), 1);
            assert_eq!(auth[0].1, "Basic xyz");
        },
        UpstreamPlan::NotConfigured => panic!("expected a forward plan"),
    }
}

#[test]
fn request_plan_defaults_empty_path_to_slash() {
    let state = configured_state();
    let mut jar = CookieJar::new();
    let plan = plan_upstream_request(&state, &mut jar, "", &Vec::new(), NOW);
    match plan {
        UpstreamPlan::Forward { target_url, .. } => {
            assert_eq!(target_url, "https://srv.example/");
        },
        UpstreamPlan::NotConfigured => panic!("expected a forward plan"),
    }
}

#[test]
fn proxy_redirect_rewrite() {
    let mut jar = CookieJar::new();
    let headers = vec![("location".to_string(), "https://srv.example/login".to_string())];
    let plan = plan_upstream_response(
        &mut jar,
        302,
        &headers,
        "https://srv.example",
        "http://127.0.0.1:15099",
        NOW,
    );
    assert_eq!(plan.status, 302);
    assert!(!plan.is_sse);
    assert!(plan.headers.contains(&(
        "location".to_string(),
        "http://127.0.0.1:15099/login".to_string(),
    )));
}

#[test]
fn non_redirect_location_passes_through() {
    let mut jar = CookieJar::new();
    let headers = vec![("location".to_string(), "https://srv.example/login".to_string())];
    let plan = plan_upstream_response(
        &mut jar,
        200,
        &headers,
        "https://srv.example",
        "http://127.0.0.1:15099",
        NOW,
    );
    assert!(plan.headers.contains(&(
        "location".to_string(),
        "https://srv.example/login".to_string(),
    )));
}

#[test]
fn foreign_redirect_location_kept() {
    let mut jar = CookieJar::new();
    let headers = vec![("location".to_string(), "https://other.example/x".to_string())];
    let plan = plan_upstream_response(
        &mut jar,
        301,
        &headers,
        "https://srv.example",
        "http://127.0.0.1:15099",
        NOW,
    );
    assert!(plan.headers.contains(&(
        "location".to_string(),
        "https://other.example/x".to_string(),
    )));
}

#[test]
fn secure_set_cookie_kept_in_jar_only() {
    let mut jar = CookieJar::new();
    let headers = vec![
        ("set-cookie".to_string(), "__Secure-token=xyz; Path=/; Secure".to_string()),
        ("x-other".to_string(), "1".to_string()),
    ];
    let plan = plan_upstream_response(
        &mut jar,
        200,
        &headers,
        "https://srv.example",
        "http://127.0.0.1:15099",
        NOW,
    );
    assert!(!plan.headers.iter().any(|(n, _)| n == "set-cookie"));
    assert!(plan.headers.contains(&("x-other".to_string(), "1".to_string())));
    assert_eq!(jar.cookie_count(), 1);
    assert_eq!(jar.entries()[0].name, "__Secure-token");
}

#[test]
fn sanitized_set_cookie_forwarded() {
    let mut jar = CookieJar::new();
    let headers = vec![(
        "set-cookie".to_string(),
        "tok=v; Path=/; Domain=example.com; SameSite=None".to_string(),
    )];
    let plan = plan_upstream_response(
        &mut jar,
        200,
        &headers,
        "https://srv.example",
        "http://127.0.0.1:15099",
        NOW,
    );
    let sc = plan.headers.iter().find(|(n, _)| n == "set-cookie").expect("echoed cookie");
    assert!(sc.1.contains("tok=v"));
    assert!(!sc.1.contains("Domain="));
    assert!(!sc.1.contains("SameSite=None"));
    assert!(sc.1.contains("SameSite=Lax"));
    assert_eq!(jar.cookie_count(), 1);
}

#[test]
fn sse_passthrough_has_no_content_length() {
    let mut jar = CookieJar::new();
    let headers = vec![
        ("content-type".to_string(), "text/event-stream".to_string()),
        ("content-length".to_string(), "10".to_string()),
        ("transfer-encoding".to_string(), "chunked".to_string()),
    ];
    let plan = plan_upstream_response(
        &mut jar,
        200,
        &headers,
        "https://srv.example",
        "http://127.0.0.1:15099",
        NOW,
    );
    assert!(plan.is_sse);
    assert!(!plan.headers.iter().any(|(n, _)| n.eq_ignore_ascii_case("content-length")));
    assert!(!plan.headers.iter().any(|(n, _)| n.eq_ignore_ascii_case("transfer-encoding")));
    assert!(plan.headers.contains(&("Cache-Control".to_string(), "no-cache".to_string())));
    assert!(plan.headers.contains(&("X-Accel-Buffering".to_string(), "no".to_string())));
}

#[test]
fn buffered_response_not_sse() {
    let mut jar = CookieJar::new();
    let headers = vec![("content-type".to_string(), "application/json".to_string())];
    let plan = plan_upstream_response(
        &mut jar,
        200,
        &headers,
        "https://srv.example",
        "http://127.0.0.1:15099",
        NOW,
    );
    assert!(!plan.is_sse);
    assert!(!plan.headers.iter().any(|(n, _)| n == "Cache-Control"));
}

#[test]
fn repeated_set_cookie_last_wins_in_jar() {
    let mut jar = CookieJar::new();
    let headers = vec![
        ("set-cookie".to_string(), "n=1; Path=/".to_string()),
        ("set-cookie".to_string(), "n=2; Path=/".to_string()),
    ];
    let plan = plan_upstream_response(
        &mut jar,
        200,
        &headers,
        "https://srv.example",
        "http://127.0.0.1:15099",
        NOW,
    );
    let echoed: Vec<_> = plan.headers.iter().filter(|(n, _)| n == "set-cookie").collect();
    assert_eq!(echoed.len(), 2);
    assert_eq!(jar.cookie_count(), 1);
    assert_eq!(jar.entries()[0].value, "2");
}
