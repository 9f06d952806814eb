use yao_proxy::appconf::AppConf;
use yao_proxy::bridge::bridge_page;
use yao_proxy::cookie::CookieJar;
use yao_proxy::desktop::{
    desktop_not_found, desktop_not_ready, desktop_route_for, desktop_window_missing,
    fullscreen_json, parse_fullscreen_body, DesktopRoute,
};
use yao_proxy::filename::{percent_decode, sanitize_filename};
use yao_proxy::statics::{
    cui_not_built_page, guess_mime, mime_is_html, render_html_page, static_cache_control,
    static_serve_decision, StaticDecision,
};

const NOW: u64 = 1_700_000_000;

#[test]
fn guess_mime_by_extension() {
    assert_eq!(guess_mime("index.html"), "text/html; charset=utf-8");
    assert_eq!(guess_mime("assets/app.js"), "application/javascript; charset=utf-8");
    assert_eq!(guess_mime("mod.mjs"), "application/javascript; charset=utf-8");
    assert_eq!(guess_mime("style.css"), "text/css; charset=utf-8");
    assert_eq!(guess_mime("data.json"), "application/json; charset=utf-8");
    assert_eq!(guess_mime("app.js.map"), "application/json; charset=utf-8");
    assert_eq!(guess_mime("logo.png"), "image/png");
    assert_eq!(guess_mime("a.jpg"), "image/jpeg");
    assert_eq!(guess_mime("a.jpeg"), "image/jpeg");
    assert_eq!(guess_mime("a.gif"), "image/gif");
    assert_eq!(guess_mime("a.svg"), "image/svg+xml");
    assert_eq!(guess_mime("a.ico"), "image/x-icon");
    assert_eq!(guess_mime("f.woff"), "font/woff");
    assert_eq!(guess_mime("f.woff2"), "font/woff2");
    assert_eq!(guess_mime("f.ttf"), "font/ttf");
    assert_eq!(guess_mime("f.eot"), "application/vnd.ms-fontobject");
    assert_eq!(guess_mime("m.wasm"), "application/wasm");
    assert_eq!(guess_mime("r.txt"), "text/plain; charset=utf-8");
    assert_eq!(guess_mime("r.xml"), "application/xml; charset=utf-8");
    assert_eq!(guess_mime("noext"), "application/octet-stream");
    assert_eq!(guess_mime("dir.d/noext"), "application/octet-stream");
    assert_eq!(guess_mime(".hidden"), "application/octet-stream");
}

#[test]
fn cache_control_follows_mime() {
    assert!(mime_is_html("text/html; charset=utf-8"));
    assert!(!mime_is_html("application/json; charset=utf-8"));
    assert_eq!(static_cache_control(true), "no-cache");
    assert_eq!(static_cache_control(false), "public, max-age=3600");
}

#[test]
fn static_path_traversal_forbidden() {
    assert!(matches!(
        static_serve_decision("/__yao_admin_root/../etc/passwd"),
        StaticDecision::Forbidden
    ));
    assert!(matches!(
        static_serve_decision("/__yao_admin_root/a/../../etc"),
        StaticDecision::Forbidden
    ));
    assert!(matches!(
        static_serve_decision("/__yao_admin_root/.."),
        StaticDecision::Forbidden
    ));
}

#[test]
fn static_paths_within_root_served() {
    match static_serve_decision("/__yao_admin_root/") {
        StaticDecision::Serve { rel } => assert_eq!(rel, "index.html"),
        StaticDecision::Forbidden => panic!("root must be served"),
    }
    match static_serve_decision("/__yao_admin_root/assets/app.js") {
        StaticDecision::Serve { rel } => assert_eq!(rel, "assets/app.js"),
        StaticDecision::Forbidden => panic!("asset must be served"),
    }
    match static_serve_decision("/__yao_admin_root/a/../b") {
        StaticDecision::Serve { rel } => assert_eq!(rel, "a/../b"),
        StaticDecision::Forbidden => panic!("non-escaping dots must be served"),
    }
}

#[test]
fn html_injection_after_head() {
    let jar = CookieJar::new();
    let html = "<html><head><meta charset=\"utf-8\"></head><body></body></html>";
    let render = render_html_page(html, &jar);
    let marker = "/__yao_desktop/window/fullscreen";
    assert_eq!(render.body.matches(marker).count(), 1);
    let head_end = render.body.find("<head>").unwrap() + "<head>".len();
    assert!(render.body[head_end..].starts_with("<script>"));
    assert!(render.body.ends_with("</body></html>"));
    assert!(render.set_cookies.is_empty());
}

#[test]
fn html_injection_prepends_without_head() {
    let jar = CookieJar::new();
    let render = render_html_page("<p>bare</p>", &jar);
    assert!(render.body.starts_with("<script>"));
    assert!(render.body.ends_with("<p>bare</p>"));
}

#[test]
fn html_injection_maps_locale_and_emits_cookies() {
    let mut jar = CookieJar::new();
    jar.store_cookie("__locale=zh-cn; Path=/", NOW);
    jar.store_cookie("__theme=dark; Path=/", NOW);
    let render = render_html_page("<html><head></head></html>", &jar);
    assert!(render.body.contains("localStorage.setItem(\"umi_locale\",\"zh-CN\")"));
    assert!(render.body.contains("localStorage.setItem(\"__theme\",\"dark\")"));
    assert_eq!(render.set_cookies.len(), 2);
    assert_eq!(
        render.set_cookies[0],
        "__locale=zh-cn; Path=/; Max-Age=31536000; SameSite=Lax"
    );
    assert_eq!(
        render.set_cookies[1],
        "__theme=dark; Path=/; Max-Age=31536000; SameSite=Lax"
    );
}

#[test]
fn unknown_locale_falls_back_in_page() {
    let mut jar = CookieJar::new();
    jar.store_cookie("__locale=fr-fr; Path=/", NOW);
    let render = render_html_page("<html><head></head></html>", &jar);
    assert!(render.body.contains("localStorage.setItem(\"umi_locale\",\"en-US\")"));
}

#[test]
fn not_built_page_mentions_build_step() {
    let page = cui_not_built_page();
    assert!(page.contains("CUI Not Built"));
    assert!(page.contains("npm run build-cui"));
}

#[test]
fn bridge_page_seeds_storage_and_cookies() {
    let page = bridge_page("locale=zh-CN&theme=dark");
    assert!(page.contains("localStorage.setItem(\"umi_locale\", \"zh-CN\")"));
    assert!(page.contains("localStorage.setItem(\"__theme\", \"dark\")"));
    assert!(page.contains("__locale=zh-cn"));
    assert!(page.contains("__theme=dark"));
    assert!(page.contains("location.replace(\"/__yao_admin_root/\")"));
}

#[test]
fn bridge_page_clears_empty_theme() {
    let page = bridge_page("locale=en-US");
    assert!(page.contains("__locale=en-us"));
    assert!(page.contains("__theme=;max-age=0;path=/"));
}

#[test]
fn bridge_page_passes_unknown_locale_through() {
    let page = bridge_page("locale=fr-FR");
    assert!(page.contains("__locale=fr-FR"));
}

#[test]
fn desktop_routes_and_bodies() {
    assert_eq!(
        desktop_route_for("/__yao_desktop/window/fullscreen"),
        DesktopRoute::WindowFullscreen
    );
    assert_eq!(desktop_route_for("/__yao_desktop/other"), DesktopRoute::Unknown);
    assert_eq!(desktop_not_found(), (404, "{\"error\":\"not found\"}"));
    assert_eq!(desktop_not_ready(), (503, "{\"error\":\"app not ready\"}"));
    assert_eq!(desktop_window_missing(), (404, "{\"error\":\"window not found\"}"));
    assert_eq!(fullscreen_json(true), "{\"fullscreen\":true}");
    assert_eq!(fullscreen_json(false), "{\"fullscreen\":false}");
}

#[test]
fn fullscreen_body_parse() {
    assert!(parse_fullscreen_body(b"{\"fullscreen\":true}"));
    assert!(!parse_fullscreen_body(b"{\"fullscreen\":false}"));
    assert!(!parse_fullscreen_body(b"{}"));
    assert!(!parse_fullscreen_body(b"not json"));
    assert!(!parse_fullscreen_body(b"{\"fullscreen\":\"yes\"}"));
}

#[test]
fn percent_decode_unescapes_bytes() {
    assert_eq!(percent_decode("a%20b%41"), "a bA");
    assert_eq!(percent_decode("no-escapes"), "no-escapes");
    assert_eq!(percent_decode("broken%2"), "broken%2");
    assert_eq!(percent_decode("%zz"), "%zz");
    assert_eq!(percent_decode("%E4%B8%AD"), "\u{4e2d}");
}

#[test]
fn sanitize_filename_replaces_illegal_chars() {
    assert_eq!(sanitize_filename("a/b\\c:d*e?f\"g<h>i|j.txt"), "a_b_c_d_e_f_g_h_i_j.txt");
    assert_eq!(sanitize_filename("plain.pdf"), "plain.pdf");
}

#[test]
fn app_conf_defaults() {
    let conf = AppConf::default();
    assert_eq!(conf.name, "Yao Desktop");
    assert_eq!(conf.logo, "");
    assert_eq!(conf.port, 15099);
    assert_eq!(conf.theme.primary_color, "#3b82f6");
    assert!(!conf.updater.active);
    assert!(conf.updater.endpoints.is_empty());
    assert_eq!(conf.updater.pubkey, "");
    assert!(conf.servers.is_empty());
}
