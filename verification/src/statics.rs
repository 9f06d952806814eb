//! The SPA static server's decisions: resolving the request path inside the
//! bundle, the lexical path-traversal guard, MIME selection, cache headers,
//! and the HTML head injection that synchronizes preferences.

use vstd::prelude::*;
use crate::strutil::{
    has_prefix, split_on, views_of, first_match, matches_at, str_to_chars, chars_to_string,
    split_chars, chars_eq_str, starts_with_str, append_chars, append_str, subvec, find_first,
    find_sub_from,
};
use crate::cookie::{CookieJar, CookieModel, jar_lookup};

verus! {

/// The relative bundle path for a request under `/__yao_admin_root/`: the
/// prefix stripped, the empty remainder standing for `index.html`.
pub open spec fn static_rel_of(path: Seq<char>) -> Seq<char> {
    let rel = path.skip("/__yao_admin_root/"@.len() as int);
    if rel.len() == 0 {
        "index.html"@
    } else {
        rel
    }
}

/// How one path segment moves the depth: `..` up, `.` and empty nowhere,
/// anything else down.
pub open spec fn seg_depth_delta(seg: Seq<char>) -> int {
    if seg == ".."@ {
        -1
    } else if seg == "."@ || seg.len() == 0 {
        0
    } else {
        1
    }
}

/// Walking the segments from `depth`, some `..` climbs above the root.
pub open spec fn escapes_from(segs: Seq<Seq<char>>, depth: int) -> bool
    decreases segs.len(),
{
    if segs.len() == 0 {
        false
    } else {
        let d = depth + seg_depth_delta(segs[0]);
        d < 0 || escapes_from(segs.drop_first(), d)
    }
}

/// The relative path's `..` segments would escape the bundle root.
pub open spec fn path_escapes_root(rel: Seq<char>) -> bool {
    escapes_from(split_on(rel, '/'), 0)
}

/// What the static server decides from the request path alone.
pub enum StaticDecision {
    /// The path climbs out of the bundle: respond 403 Forbidden.
    Forbidden,
    /// Serve this path relative to the bundle root (with SPA fallback).
    Serve { rel: String },
}

/// Decide a static request: strip the prefix, default to `index.html`, and
/// refuse any path whose `..` segments would escape the bundle root.
#[verifier::loop_isolation(false)]
pub fn static_serve_decision(path: &str) -> (r: StaticDecision)
    requires
        has_prefix(path@, "/__yao_admin_root/"@),
    ensures
        r is Forbidden <==> path_escapes_root(static_rel_of(path@)),
        (match r {
            StaticDecision::Forbidden => true,
            StaticDecision::Serve { rel } => rel@ == static_rel_of(path@),
        }),
{
    let chars = str_to_chars(path);
    proof {
        reveal_strlit("/__yao_admin_root/");
    }
    let tail = subvec(&chars, 18, chars.len());
    assert(tail@ =~= path@.skip("/__yao_admin_root/"@.len() as int));
    let rel = if tail.len() == 0 {
        str_to_chars("index.html")
    } else {
        tail
    };
    assert(rel@ == static_rel_of(path@));

    let segs = split_chars(&rel, '/');
    let ghost seg_views = views_of(segs@);
    let ns = segs.len();
    let mut depth: i128 = 0;
    let mut i: usize = 0;
    proof {
        assert(seg_views.subrange(0, ns as int) =~= seg_views);
    }
    while i < ns
        invariant
            0 <= i <= ns,
            ns == segs@.len(),
            0 <= depth <= i,
            path_escapes_root(static_rel_of(path@)) == escapes_from(
                seg_views.subrange(i as int, ns as int),
                depth as int,
            ),
        decreases ns - i,
    {
        let ghost ssuf = seg_views.subrange(i as int, ns as int);
        proof {
            assert(ssuf[0] == seg_views[i as int]);
            assert(ssuf.drop_first() =~= seg_views.subrange(i + 1, ns as int));
        }
        let seg = &segs[i];
        if chars_eq_str(seg, "..") {
            if depth == 0 {
                assert(escapes_from(ssuf, depth as int));
                return StaticDecision::Forbidden;
            }
            depth -= 1;
        } else if chars_eq_str(seg, ".") || seg.len() == 0 {
        } else {
            depth += 1;
        }
        i += 1;
    }
    proof {
        assert(seg_views.subrange(ns as int, ns as int) =~= Seq::<Seq<char>>::empty());
    }
    StaticDecision::Serve { rel: chars_to_string(&rel) }
}

/// The position of the last occurrence of `c` in `s`, or `-1`.
pub open spec fn last_at(s: Seq<char>, c: char) -> int
    decreases s.len(),
{
    if s.len() == 0 {
        -1
    } else if s[s.len() - 1] == c {
        s.len() - 1
    } else {
        last_at(s.drop_last(), c)
    }
}

proof fn lemma_last_at_range(s: Seq<char>, c: char, k: int)
    requires
        -1 <= k < s.len(),
        k >= 0 ==> s[k] == c,
        forall|i: int| k < i < s.len() ==> s[i] != c,
    ensures
        last_at(s, c) == k,
    decreases s.len(),
{
    if s.len() > 0 {
        if k == s.len() - 1 {
        } else {
            assert(s[s.len() - 1] != c);
            lemma_last_at_range(s.drop_last(), c, k);
        }
    }
}

/// The file extension the MIME type goes by: the part of the final path
/// segment after its last dot, empty when the segment has no dot or starts
/// with its only dot.
pub open spec fn ext_of(path: Seq<char>) -> Seq<char> {
    let fname = path.skip(last_at(path, '/') + 1);
    let k = last_at(fname, '.');
    if k <= 0 {
        Seq::empty()
    } else {
        fname.skip(k + 1)
    }
}

/// The Content-Type for a file extension.
pub open spec fn mime_of(ext: Seq<char>) -> Seq<char> {
    if ext == "html"@ {
        "text/html; charset=utf-8"@
    } else if ext == "js"@ || ext == "mjs"@ {
        "application/javascript; charset=utf-8"@
    } else if ext == "css"@ {
        "text/css; charset=utf-8"@
    } else if ext == "json"@ || ext == "map"@ {
        "application/json; charset=utf-8"@
    } else if ext == "png"@ {
        "image/png"@
    } else if ext == "jpg"@ || ext == "jpeg"@ {
        "image/jpeg"@
    } else if ext == "gif"@ {
        "image/gif"@
    } else if ext == "svg"@ {
        "image/svg+xml"@
    } else if ext == "ico"@ {
        "image/x-icon"@
    } else if ext == "woff"@ {
        "font/woff"@
    } else if ext == "woff2"@ {
        "font/woff2"@
    } else if ext == "ttf"@ {
        "font/ttf"@
    } else if ext == "eot"@ {
        "application/vnd.ms-fontobject"@
    } else if ext == "wasm"@ {
        "application/wasm"@
    } else if ext == "txt"@ {
        "text/plain; charset=utf-8"@
    } else if ext == "xml"@ {
        "application/xml; charset=utf-8"@
    } else {
        "application/octet-stream"@
    }
}

/// Guess the Content-Type of a file from its path's extension.
pub fn guess_mime(path: &str) -> (r: &'static str)
    ensures
        r@ == mime_of(ext_of(path@)),
{
    let chars = str_to_chars(path);
    let n = chars.len();

    // final segment: after the last '/'
    let mut fstart: usize = 0;
    let mut j: usize = n;
    proof {
        if n == 0 {
            lemma_last_at_range(chars@, '/', -1);
        }
    }
    while j > 0
        invariant_except_break
            0 <= j <= n,
            n == chars@.len(),
            fstart == 0,
            forall|i: int| j <= i < n ==> chars@[i] != '/',
            j == 0 ==> last_at(chars@, '/') == -1,
        ensures
            fstart == last_at(chars@, '/') + 1,
            fstart <= n,
        decreases j,
    {
        if chars[j - 1] == '/' {
            proof {
                lemma_last_at_range(chars@, '/', j - 1);
            }
            fstart = j;
            break ;
        }
        j -= 1;
        proof {
            if j == 0 {
                lemma_last_at_range(chars@, '/', -1);
            }
        }
    }
    assert(fstart == last_at(chars@, '/') + 1);
    let fname = subvec(&chars, fstart, n);
    assert(fname@ =~= chars@.skip(last_at(chars@, '/') + 1));

    // extension: after the last '.' in the segment, if the dot is not first
    let m = fname.len();
    let mut dot: usize = 0;
    let mut seen = false;
    let mut j: usize = m;
    proof {
        if m == 0 {
            lemma_last_at_range(fname@, '.', -1);
        }
    }
    while j > 0
        invariant_except_break
            0 <= j <= m,
            m == fname@.len(),
            !seen,
            forall|i: int| j <= i < m ==> fname@[i] != '.',
            j == 0 ==> last_at(fname@, '.') == -1,
        ensures
            seen ==> dot == last_at(fname@, '.') && 0 <= dot < m,
            !seen ==> last_at(fname@, '.') == -1,
        decreases j,
    {
        if fname[j - 1] == '.' {
            proof {
                lemma_last_at_range(fname@, '.', j - 1);
            }
            dot = j - 1;
            seen = true;
            break ;
        }
        j -= 1;
        proof {
            if j == 0 {
                lemma_last_at_range(fname@, '.', -1);
            }
        }
    }
    let ext = if !seen || dot == 0 {
        Vec::<char>::new()
    } else {
        subvec(&fname, dot + 1, m)
    };
    proof {
        if !seen || dot == 0 {
            assert(last_at(fname@, '.') <= 0);
            assert(ext@ =~= ext_of(path@));
        } else {
            assert(ext@ =~= fname@.skip(last_at(fname@, '.') + 1));
        }
    }
    assert(ext@ == ext_of(path@));

    if chars_eq_str(&ext, "html") {
        "text/html; charset=utf-8"
    } else if chars_eq_str(&ext, "js") || chars_eq_str(&ext, "mjs") {
        "application/javascript; charset=utf-8"
    } else if chars_eq_str(&ext, "css") {
        "text/css; charset=utf-8"
    } else if chars_eq_str(&ext, "json") || chars_eq_str(&ext, "map") {
        "application/json; charset=utf-8"
    } else if chars_eq_str(&ext, "png") {
        "image/png"
    } else if chars_eq_str(&ext, "jpg") || chars_eq_str(&ext, "jpeg") {
        "image/jpeg"
    } else if chars_eq_str(&ext, "gif") {
        "image/gif"
    } else if chars_eq_str(&ext, "svg") {
        "image/svg+xml"
    } else if chars_eq_str(&ext, "ico") {
        "image/x-icon"
    } else if chars_eq_str(&ext, "woff") {
        "font/woff"
    } else if chars_eq_str(&ext, "woff2") {
        "font/woff2"
    } else if chars_eq_str(&ext, "ttf") {
        "font/ttf"
    } else if chars_eq_str(&ext, "eot") {
        "application/vnd.ms-fontobject"
    } else if chars_eq_str(&ext, "wasm") {
        "application/wasm"
    } else if chars_eq_str(&ext, "txt") {
        "text/plain; charset=utf-8"
    } else if chars_eq_str(&ext, "xml") {
        "application/xml; charset=utf-8"
    } else {
        "application/octet-stream"
    }
}

/// An HTML Content-Type.
pub open spec fn is_html_mime(mime: Seq<char>) -> bool {
    has_prefix(mime, "text/html"@)
}

/// Whether the Content-Type is HTML, which drives injection and caching.
pub fn mime_is_html(mime: &str) -> (r: bool)
    ensures
        r == is_html_mime(mime@),
{
    let chars = str_to_chars(mime);
    starts_with_str(&chars, "text/html")
}

/// The Cache-Control for a static response: HTML is revalidated, assets are
/// cached for an hour.
pub fn static_cache_control(is_html: bool) -> (r: &'static str)
    ensures
        r@ == if is_html {
            "no-cache"@
        } else {
            "public, max-age=3600"@
        },
{
    if is_html {
        "no-cache"
    } else {
        "public, max-age=3600"
    }
}


/// The `umi_locale` value written into the page for a stored `__locale`
/// cookie: the known locales map to their canonical forms, any other
/// non-empty value falls back to `en-US`, and empty stays empty.
pub open spec fn umi_locale_of(locale: Seq<char>) -> Seq<char> {
    if locale == "zh-cn"@ {
        "zh-CN"@
    } else if locale == "en-us"@ {
        "en-US"@
    } else if locale == "ja-jp"@ {
        "ja-JP"@
    } else if locale.len() > 0 {
        "en-US"@
    } else {
        Seq::empty()
    }
}

/// The `umi_locale` value for a stored locale.
pub fn umi_locale_for(locale: &str) -> (r: &'static str)
    ensures
        r@ == umi_locale_of(locale@),
{
    let chars = str_to_chars(locale);
    proof {
        reveal_strlit("");
    }
    if chars_eq_str(&chars, "zh-cn") {
        "zh-CN"
    } else if chars_eq_str(&chars, "en-us") {
        "en-US"
    } else if chars_eq_str(&chars, "ja-jp") {
        "ja-JP"
    } else if chars.len() > 0 {
        "en-US"
    } else {
        assert(""@ =~= Seq::<char>::empty());
        ""
    }
}

/// A preference cookie name: `__locale` or `__theme`.
pub open spec fn is_pref_name(n: Seq<char>) -> bool {
    n == "__locale"@ || n == "__theme"@
}

/// The `Set-Cookie` lines an HTML response carries so browser scripts can
/// read the stored preferences: one line per `__locale` / `__theme` entry,
/// in jar order.
pub open spec fn pref_set_cookies(jar: Seq<CookieModel>) -> Seq<Seq<char>>
    decreases jar.len(),
{
    if jar.len() == 0 {
        Seq::empty()
    } else if is_pref_name(jar[0].name) {
        seq![jar[0].name + "="@ + jar[0].value + "; Path=/; Max-Age=31536000; SameSite=Lax"@]
            + pref_set_cookies(jar.drop_first())
    } else {
        pref_set_cookies(jar.drop_first())
    }
}

/// The stored `__locale` value, or empty.
pub open spec fn locale_pref_of(jar: Seq<CookieModel>) -> Seq<char> {
    match jar_lookup(jar, "__locale"@) {
        Some(v) => v,
        None => Seq::empty(),
    }
}

/// The stored `__theme` value, or empty.
pub open spec fn theme_pref_of(jar: Seq<CookieModel>) -> Seq<char> {
    match jar_lookup(jar, "__theme"@) {
        Some(v) => v,
        None => Seq::empty(),
    }
}

/// The synchronous script injected into every HTML page: it writes the
/// locale and theme into browser storage before any other script runs, and
/// polyfills the Fullscreen API to go through the desktop window endpoint.
pub open spec fn inject_script_of(umi: Seq<char>, theme: Seq<char>) -> Seq<char> {
    "<script>try{if(\""@ + umi + "\")localStorage.setItem(\"umi_locale\",\""@ + umi
        + "\");if(\""@ + theme + "\")localStorage.setItem(\"__theme\",\""@ + theme
        + "\");else localStorage.removeItem(\"__theme\");}catch(e){}</script><script>(function(){var _fs=false,_ep=\"/__yao_desktop/window/fullscreen\";function _set(v){return fetch(_ep,{method:\"POST\",headers:{\"Content-Type\":\"application/json\"},body:JSON.stringify({fullscreen:v})}).then(function(r){return r.json()}).then(function(d){_fs=d.fullscreen;document.dispatchEvent(new Event(\"fullscreenchange\"))})}Object.defineProperty(document,\"fullscreenElement\",{configurable:true,get:function(){return _fs?document.documentElement:null}});Object.defineProperty(document,\"webkitFullscreenElement\",{configurable:true,get:function(){return _fs?document.documentElement:null}});Element.prototype.requestFullscreen=function(){return _set(true)};document.exitFullscreen=function(){return _set(false)};Element.prototype.webkitRequestFullscreen=Element.prototype.requestFullscreen;document.webkitExitFullscreen=document.exitFullscreen})();</script>"@
}

/// Build the injected script for the given preference values.
pub fn build_inject_script(umi: &str, theme: &str) -> (r: Vec<char>)
    ensures
        r@ == inject_script_of(umi@, theme@),
{
    let mut out: Vec<char> = Vec::new();
    append_str(&mut out, "<script>try{if(\"");
    append_str(&mut out, umi);
    append_str(&mut out, "\")localStorage.setItem(\"umi_locale\",\"");
    append_str(&mut out, umi);
    append_str(&mut out, "\");if(\"");
    append_str(&mut out, theme);
    append_str(&mut out, "\")localStorage.setItem(\"__theme\",\"");
    append_str(&mut out, theme);
    append_str(&mut out,
        "\");else localStorage.removeItem(\"__theme\");}catch(e){}</script><script>(function(){var _fs=false,_ep=\"/__yao_desktop/window/fullscreen\";function _set(v){return fetch(_ep,{method:\"POST\",headers:{\"Content-Type\":\"application/json\"},body:JSON.stringify({fullscreen:v})}).then(function(r){return r.json()}).then(function(d){_fs=d.fullscreen;document.dispatchEvent(new Event(\"fullscreenchange\"))})}Object.defineProperty(document,\"fullscreenElement\",{configurable:true,get:function(){return _fs?document.documentElement:null}});Object.defineProperty(document,\"webkitFullscreenElement\",{configurable:true,get:function(){return _fs?document.documentElement:null}});Element.prototype.requestFullscreen=function(){return _set(true)};document.exitFullscreen=function(){return _set(false)};Element.prototype.webkitRequestFullscreen=Element.prototype.requestFullscreen;document.webkitExitFullscreen=document.exitFullscreen})();</script>");
    assert(out@ =~= inject_script_of(umi@, theme@));
    out
}

/// `script` inserted into `html` immediately after the closing `>` of the
/// first `<head ...>` tag; appended when that tag never closes, prepended
/// when there is no `<head` at all.
pub open spec fn inject_into(html: Seq<char>, script: Seq<char>) -> Seq<char> {
    let h = first_match(html, "<head"@);
    if h < 0 {
        script + html
    } else {
        let g = first_match(html.skip(h), seq!['>']);
        if g < 0 {
            html + script
        } else {
            html.subrange(0, h + g + 1) + script + html.skip(h + g + 1)
        }
    }
}

/// Injection inserts the script at exactly one position: the output is the
/// input split once, with the script between the two halves.
pub proof fn lemma_inject_once(html: Seq<char>, script: Seq<char>)
    ensures
        exists|i: int|
            0 <= i <= html.len() && inject_into(html, script) == html.subrange(0, i) + script
                + html.skip(i),
{
    let h = first_match(html, "<head"@);
    reveal_strlit("<head");
    if h < 0 {
        assert(html.subrange(0, 0) =~= Seq::<char>::empty());
        assert(html.skip(0) =~= html);
        assert(inject_into(html, script) =~= html.subrange(0, 0) + script + html.skip(0));
        assert(0 <= 0 <= html.len() && inject_into(html, script) == html.subrange(0, 0) + script
            + html.skip(0));
    } else {
        crate::strutil::lemma_first_match(html, "<head"@);
        let g = first_match(html.skip(h), seq!['>']);
        if g < 0 {
            let n = html.len() as int;
            assert(html.subrange(0, n) =~= html);
            assert(html.skip(n) =~= Seq::<char>::empty());
            assert(inject_into(html, script) =~= html.subrange(0, n) + script + html.skip(n));
            assert(0 <= n <= html.len() && inject_into(html, script) == html.subrange(0, n)
                + script + html.skip(n));
        } else {
            crate::strutil::lemma_first_match(html.skip(h), seq!['>']);
            let p = h + g + 1;
            assert(0 <= p <= html.len());
            assert(inject_into(html, script) == html.subrange(0, p) + script + html.skip(p));
        }
    }
}

/// Insert the script after the first `<head ...>` tag.
pub fn inject_head_script(html: &Vec<char>, script: &Vec<char>) -> (r: Vec<char>)
    ensures
        r@ == inject_into(html@, script@),
{
    let pat = str_to_chars("<head");
    proof {
        reveal_strlit("<head");
    }
    let n = html.len();
    match find_first(html, &pat) {
        None => {
            let mut out = subvec(script, 0, script.len());
            assert(out@ =~= script@);
            append_chars(&mut out, html);
            out
        },
        Some(h) => {
            proof {
                crate::strutil::lemma_first_match(html@, pat@);
            }
            let mut gtpat: Vec<char> = Vec::new();
            gtpat.push('>');
            assert(gtpat@ =~= seq!['>']);
            let ghost suffix = html@.skip(h as int);
            match find_sub_from(html, &gtpat, h) {
                Some(j) => {
                    proof {
                        crate::strutil::lemma_first_match(suffix, seq!['>']);
                        let k = first_match(suffix, seq!['>']);
                        assert(suffix.subrange(j - h, j - h + 1) =~= html@.subrange(
                            j as int,
                            j + 1,
                        ));
                        assert(matches_at(suffix, gtpat@, j - h));
                        assert forall|u: int| 0 <= u < j - h implies !matches_at(
                            suffix,
                            gtpat@,
                            u,
                        ) by {
                            if matches_at(suffix, gtpat@, u) {
                                assert(html@.subrange(h + u, h + u + 1) =~= suffix.subrange(
                                    u,
                                    u + 1,
                                ));
                                assert(matches_at(html@, gtpat@, h + u));
                            }
                        }
                        assert(k == j - h);
                    }
                    let pos = j + 1;
                    let mut out = subvec(html, 0, pos);
                    append_chars(&mut out, script);
                    let tail = subvec(html, pos, n);
                    append_chars(&mut out, &tail);
                    proof {
                        assert(html@.subrange(pos as int, n as int) =~= html@.skip(pos as int));
                        assert(out@ =~= inject_into(html@, script@));
                    }
                    out
                },
                None => {
                    proof {
                        crate::strutil::lemma_first_match(suffix, seq!['>']);
                        let k = first_match(suffix, seq!['>']);
                        if k >= 0 {
                            assert(matches_at(suffix, gtpat@, k));
                            assert(html@.subrange(h + k, h + k + 1) =~= suffix.subrange(
                                k,
                                k + 1,
                            ));
                            assert(matches_at(html@, gtpat@, h + k));
                        }
                    }
                    let mut out = subvec(html, 0, n);
                    assert(out@ =~= html@);
                    append_chars(&mut out, script);
                    out
                },
            }
        },
    }
}

/// An HTML page ready to serve: the injected body and the preference
/// `Set-Cookie` lines to attach.
pub struct HtmlRender {
    /// The page with the preference script injected after `<head>`.
    pub body: String,
    /// One `Set-Cookie` line per stored preference cookie, in jar order.
    pub set_cookies: Vec<String>,
}

/// The views of a list of strings.
pub open spec fn string_views(s: Seq<String>) -> Seq<Seq<char>> {
    s.map_values(|x: String| x@)
}

/// Render an HTML page: inject the preference-sync script after the opening
/// `<head>` tag and collect the preference `Set-Cookie` lines.
#[verifier::loop_isolation(false)]
pub fn render_html_page(html: &str, jar: &CookieJar) -> (r: HtmlRender)
    ensures
        r.body@ == inject_into(
            html@,
            inject_script_of(
                umi_locale_of(locale_pref_of(jar.model())),
                theme_pref_of(jar.model()),
            ),
        ),
        string_views(r.set_cookies@) == pref_set_cookies(jar.model()),
{
    let locale = match jar.find_cookie_value("__locale") {
        Some(v) => v,
        None => String::new(),
    };
    let theme = match jar.find_cookie_value("__theme") {
        Some(v) => v,
        None => String::new(),
    };
    assert(locale@ == locale_pref_of(jar.model()));
    assert(theme@ == theme_pref_of(jar.model()));

    let umi = umi_locale_for(locale.as_str());
    let script = build_inject_script(umi, theme.as_str());
    let html_chars = str_to_chars(html);
    let body_chars = inject_head_script(&html_chars, &script);
    let body = chars_to_string(&body_chars);

    let entries = jar.entries();
    let ghost jm = jar.model();
    let n = entries.len();
    let mut set_cookies: Vec<String> = Vec::new();
    let mut i: usize = 0;
    proof {
        assert(string_views(set_cookies@) =~= Seq::<Seq<char>>::empty());
        assert(jm.subrange(0, n as int) =~= jm);
    }
    while i < n
        invariant
            0 <= i <= n,
            n == entries@.len(),
            pref_set_cookies(jm) == string_views(set_cookies@) + pref_set_cookies(
                jm.subrange(i as int, n as int),
            ),
        decreases n - i,
    {
        let ghost jsuf = jm.subrange(i as int, n as int);
        proof {
            assert(jsuf[0] == jm[i as int]);
            assert(jsuf.drop_first() =~= jm.subrange(i + 1, n as int));
        }
        let name_chars = str_to_chars(entries[i].name.as_str());
        if chars_eq_str(&name_chars, "__locale") || chars_eq_str(&name_chars, "__theme") {
            let mut line: Vec<char> = Vec::new();
            append_chars(&mut line, &name_chars);
            append_str(&mut line, "=");
            let value_chars = str_to_chars(entries[i].value.as_str());
            append_chars(&mut line, &value_chars);
            append_str(&mut line, "; Path=/; Max-Age=31536000; SameSite=Lax");
            proof {
                reveal_strlit("=");
                assert("="@ =~= seq!['=']);
                assert(line@ =~= jsuf[0].name + "="@ + jsuf[0].value
                    + "; Path=/; Max-Age=31536000; SameSite=Lax"@);
            }
            set_cookies.push(chars_to_string(&line));
            proof {
                assert(string_views(set_cookies@) =~~= string_views(set_cookies@.drop_last())
                    + seq![jsuf[0].name + "="@ + jsuf[0].value
                    + "; Path=/; Max-Age=31536000; SameSite=Lax"@]);
            }
        }
        i += 1;
    }
    proof {
        assert(jm.subrange(n as int, n as int) =~= Seq::<CookieModel>::empty());
    }
    HtmlRender { body, set_cookies }
}

/// The placeholder page served while the admin bundle is absent.
pub fn cui_not_built_page() -> (r: &'static str)
    ensures
        r@ == "<!DOCTYPE html>\n<html><head><meta charset=\"utf-8\"></head>\n<body style=\"font-family:system-ui;display:flex;justify-content:center;align-items:center;height:100vh;margin:0;background:#f5f5f5\">\n<div style=\"text-align:center\">\n<h2>CUI Not Built</h2>\n<p>Please run <code>npm run build-cui</code> to build CUI static assets first.</p>\n</div>\n</body></html>"@,
{
    "<!DOCTYPE html>\n<html><head><meta charset=\"utf-8\"></head>\n<body style=\"font-family:system-ui;display:flex;justify-content:center;align-items:center;height:100vh;margin:0;background:#f5f5f5\">\n<div style=\"text-align:center\">\n<h2>CUI Not Built</h2>\n<p>Please run <code>npm run build-cui</code> to build CUI static assets first.</p>\n</div>\n</body></html>"
}

} // verus!
