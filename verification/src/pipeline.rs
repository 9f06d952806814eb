//! The upstream forwarding pipeline: target URL construction, request
//! header sanitizing and rewriting, cookie merging, auth injection, response
//! header processing with `Set-Cookie` interception and redirect rewriting,
//! and the streaming decision for server-sent events.

use vstd::prelude::*;
use crate::strutil::{
    lower, has_prefix, replace_all, dec_chars, contains_sub, str_to_chars, chars_to_string,
    to_lower, chars_eq_str, starts_with_str, append_chars, append_str, replace_all_chars,
    u64_to_chars, subvec,
};
use crate::cookie::{
    CookieJar, CookieModel, jar_after_store, store_result_model, purge_of, merged_cookie_pairs,
    render_pairs,
};
use crate::state::ProxyState;

verus! {

/// The views of a header list.
pub open spec fn header_views(s: Seq<(String, String)>) -> Seq<(Seq<char>, Seq<char>)> {
    s.map_values(|p: (String, String)| (p.0@, p.1@))
}

/// The loopback origin for a port: `http://127.0.0.1:<port>`.
pub open spec fn local_base_of(port: u16) -> Seq<char> {
    "http://127.0.0.1:"@ + dec_chars(port as int)
}

/// The loopback origin for a port, as a string.
pub fn local_base_for(port: u16) -> (r: String)
    ensures
        r@ == local_base_of(port),
{
    let mut out: Vec<char> = Vec::new();
    append_str(&mut out, "http://127.0.0.1:");
    let digits = u64_to_chars(port as u64);
    append_chars(&mut out, &digits);
    chars_to_string(&out)
}

/// The upstream target: the base joined with the path-and-query, which
/// defaults to `/` when empty.
pub open spec fn target_url_of(base: Seq<char>, path_and_query: Seq<char>) -> Seq<char> {
    if path_and_query.len() == 0 {
        base + "/"@
    } else {
        base + path_and_query
    }
}

/// The value of the first header named `name` (case-insensitively), if any.
pub open spec fn first_header_value(
    headers: Seq<(Seq<char>, Seq<char>)>,
    name: Seq<char>,
) -> Option<Seq<char>>
    decreases headers.len(),
{
    if headers.len() == 0 {
        None
    } else if lower(headers[0].0) == name {
        Some(headers[0].1)
    } else {
        first_header_value(headers.drop_first(), name)
    }
}

/// The browser `Cookie` header carried by the request, or empty.
pub open spec fn browser_cookie_of(headers: Seq<(Seq<char>, Seq<char>)>) -> Seq<char> {
    match first_header_value(headers, "cookie"@) {
        Some(v) => v,
        None => Seq::empty(),
    }
}

/// Whether the upstream response is a server-sent event stream: its
/// `Content-Type` contains `text/event-stream`.
pub open spec fn is_sse_headers(headers: Seq<(Seq<char>, Seq<char>)>) -> bool {
    match first_header_value(headers, "content-type"@) {
        Some(v) => contains_sub(v, "text/event-stream"@),
        None => false,
    }
}

/// A redirect status: 300 through 399.
pub open spec fn is_redirect_status(status: u16) -> bool {
    300 <= status <= 399
}

/// What one request header contributes upstream: hop-by-hop headers and the
/// browser cookie are dropped; when a bearer token is configured a client
/// `Authorization` is dropped too, since the token overrides it; `Origin`
/// is replaced by the upstream base, `Referer` has the loopback base
/// rewritten, and the rest pass through.
pub open spec fn request_header_out(
    name: Seq<char>,
    value: Seq<char>,
    remote: Seq<char>,
    local: Seq<char>,
    token: Seq<char>,
) -> Seq<(Seq<char>, Seq<char>)> {
    let l = lower(name);
    if l == "host"@ || l == "connection"@ || l == "transfer-encoding"@ || l == "cookie"@ {
        Seq::empty()
    } else if l == "authorization"@ && token.len() > 0 {
        Seq::empty()
    } else if l == "origin"@ {
        seq![("Origin"@, remote)]
    } else if l == "referer"@ {
        seq![("Referer"@, replace_all(value, local, remote))]
    } else {
        seq![(name, value)]
    }
}

/// All request headers transformed, in order.
pub open spec fn request_headers_out(
    headers: Seq<(Seq<char>, Seq<char>)>,
    remote: Seq<char>,
    local: Seq<char>,
    token: Seq<char>,
) -> Seq<(Seq<char>, Seq<char>)>
    decreases headers.len(),
{
    if headers.len() == 0 {
        Seq::empty()
    } else {
        request_header_out(headers[0].0, headers[0].1, remote, local, token)
            + request_headers_out(headers.drop_first(), remote, local, token)
    }
}

/// The full upstream header list: the transformed request headers, then the
/// merged cookies when non-empty, then the bearer token when configured.
/// A configured token overrides the client: its `Authorization` is dropped
/// by the transformation and exactly one `Bearer` pair is appended.
pub open spec fn upstream_headers_of(
    headers: Seq<(Seq<char>, Seq<char>)>,
    remote: Seq<char>,
    local: Seq<char>,
    merged: Seq<char>,
    token: Seq<char>,
) -> Seq<(Seq<char>, Seq<char>)> {
    request_headers_out(headers, remote, local, token) + (if merged.len() > 0 {
        seq![("Cookie"@, merged)]
    } else {
        Seq::empty()
    }) + (if token.len() > 0 {
        seq![("Authorization"@, "Bearer "@ + token)]
    } else {
        Seq::empty()
    })
}

/// What the pipeline does with a request.
pub enum UpstreamPlan {
    /// No upstream base is configured: answer 502 without forwarding.
    NotConfigured,
    /// Forward to `target_url` with exactly these headers.
    Forward { target_url: String, headers: Vec<(String, String)> },
}

/// The 502 body used when no upstream base is configured.
pub fn not_configured_body() -> (r: String)
    ensures
        r@ == "Proxy server URL not configured"@,
{
    "Proxy server URL not configured".to_owned()
}

/// Plan an upstream request. Purges expired cookies, merges the browser's
/// `Cookie` header with the jar, rewrites `Origin` / `Referer`, and injects
/// the bearer token, overriding any client-supplied `Authorization`. Fails
/// exactly when no upstream base is configured.
#[verifier::loop_isolation(false)]
pub fn plan_upstream_request(
    state: &ProxyState,
    jar: &mut CookieJar,
    path_and_query: &str,
    headers: &Vec<(String, String)>,
    now: u64,
) -> (r: UpstreamPlan)
    requires
        old(jar).wf(),
    ensures
        final(jar).wf(),
        final(jar).persist_path() == old(jar).persist_path(),
        state.server_url@.len() == 0 <==> r is NotConfigured,
        r is NotConfigured ==> final(jar).model() == old(jar).model(),
        (match r {
            UpstreamPlan::NotConfigured => true,
            UpstreamPlan::Forward { target_url, headers: out } => {
                &&& final(jar).model() == purge_of(old(jar).model(), now)
                &&& target_url@ == target_url_of(state.server_url@, path_and_query@)
                &&& header_views(out@) == upstream_headers_of(
                    header_views(headers@),
                    state.server_url@,
                    local_base_of(state.port),
                    render_pairs(
                        merged_cookie_pairs(
                            browser_cookie_of(header_views(headers@)),
                            purge_of(old(jar).model(), now),
                            path_and_query@,
                        ),
                    ),
                    state.token@,
                )
            },
        }),
{
    if state.server_url.as_str().unicode_len() == 0 {
        assert(state.server_url@.len() == 0);
        return UpstreamPlan::NotConfigured;
    }
    let ghost hv = header_views(headers@);
    let remote = state.server_url.as_str();
    let local = local_base_for(state.port);

    // find the browser Cookie header (first match, case-insensitive)
    let n = headers.len();
    let mut browser_cookie: String = String::new();
    let mut i: usize = 0;
    proof {
        assert(hv.subrange(0, n as int) =~= hv);
    }
    let mut found = false;
    while i < n && !found
        invariant
            0 <= i <= n,
            n == headers@.len(),
            !found ==> first_header_value(hv, "cookie"@) == first_header_value(
                hv.subrange(i as int, n as int),
                "cookie"@,
            ),
            found ==> first_header_value(hv, "cookie"@) == Some(browser_cookie@),
            !found ==> browser_cookie@ == Seq::<char>::empty(),
        decreases n - i,
    {
        let ghost hsuf = hv.subrange(i as int, n as int);
        proof {
            assert(hsuf[0] == hv[i as int]);
            assert(hsuf.drop_first() =~= hv.subrange(i + 1, n as int));
        }
        let name_chars = str_to_chars(headers[i].0.as_str());
        let l = to_lower(&name_chars);
        if chars_eq_str(&l, "cookie") {
            browser_cookie = headers[i].1.clone();
            found = true;
        }
        i += 1;
    }
    proof {
        if !found {
            assert(hv.subrange(n as int, n as int) =~= Seq::<(Seq<char>, Seq<char>)>::empty());
        }
        assert(browser_cookie@ == browser_cookie_of(hv));
    }

    let merged = jar.get_merged_cookies(browser_cookie.as_str(), path_and_query, now);
    let has_token = state.token.as_str().unicode_len() > 0;
    assert(has_token == (state.token@.len() > 0));

    // transform the request headers
    let mut out: Vec<(String, String)> = Vec::new();
    let mut i: usize = 0;
    proof {
        assert(header_views(out@) =~= Seq::<(Seq<char>, Seq<char>)>::empty());
        assert(hv.subrange(0, n as int) =~= hv);
    }
    while i < n
        invariant
            0 <= i <= n,
            n == headers@.len(),
            request_headers_out(hv, remote@, local@, state.token@) == header_views(out@)
                + request_headers_out(
                hv.subrange(i as int, n as int),
                remote@,
                local@,
                state.token@,
            ),
        decreases n - i,
    {
        let ghost hsuf = hv.subrange(i as int, n as int);
        proof {
            assert(hsuf[0] == hv[i as int]);
            assert(hsuf.drop_first() =~= hv.subrange(i + 1, n as int));
        }
        let name_chars = str_to_chars(headers[i].0.as_str());
        let l = to_lower(&name_chars);
        let ghost out_piece = request_header_out(hsuf[0].0, hsuf[0].1, remote@, local@, state.token@);
        if chars_eq_str(&l, "host") || chars_eq_str(&l, "connection") || chars_eq_str(
            &l,
            "transfer-encoding",
        ) || chars_eq_str(&l, "cookie") {
            assert(out_piece =~= Seq::<(Seq<char>, Seq<char>)>::empty());
        } else if has_token && chars_eq_str(&l, "authorization") {
            // the configured token overrides a client Authorization header
            assert(out_piece =~= Seq::<(Seq<char>, Seq<char>)>::empty());
        } else if chars_eq_str(&l, "origin") {
            out.push(("Origin".to_owned(), remote.to_owned()));
            proof {
                assert(header_views(out@) =~= header_views(out@.drop_last()) + out_piece);
            }
        } else if chars_eq_str(&l, "referer") {
            let value_chars = str_to_chars(headers[i].1.as_str());
            let local_chars = str_to_chars(local.as_str());
            let remote_chars = str_to_chars(remote);
            proof {
                assert(local@.len() > 0) by {
                    reveal_strlit("http://127.0.0.1:");
                }
            }
            let rewritten = replace_all_chars(&value_chars, &local_chars, &remote_chars);
            out.push(("Referer".to_owned(), chars_to_string(&rewritten)));
            proof {
                assert(header_views(out@) =~= header_views(out@.drop_last()) + out_piece);
            }
        } else {
            out.push((headers[i].0.clone(), headers[i].1.clone()));
            proof {
                assert(header_views(out@) =~= header_views(out@.drop_last()) + out_piece);
            }
        }
        proof {
            assert(request_headers_out(hsuf, remote@, local@, state.token@) == out_piece
                + request_headers_out(hsuf.drop_first(), remote@, local@, state.token@));
            assert(request_headers_out(hv, remote@, local@, state.token@) =~~= header_views(out@)
                + request_headers_out(
                hv.subrange(i + 1, n as int),
                remote@,
                local@,
                state.token@,
            ));
        }
        i += 1;
    }
    proof {
        assert(hv.subrange(n as int, n as int) =~= Seq::<(Seq<char>, Seq<char>)>::empty());
    }
    assert(header_views(out@) == request_headers_out(hv, remote@, local@, state.token@));

    let ghost merged_v = merged@;
    if merged.as_str().unicode_len() > 0 {
        out.push(("Cookie".to_owned(), merged));
        proof {
            assert(header_views(out@) =~~= header_views(out@.drop_last()) + seq![
                ("Cookie"@, merged_v),
            ]);
        }
    }
    if has_token {
        let mut auth: Vec<char> = Vec::new();
        append_str(&mut auth, "Bearer ");
        let tok = str_to_chars(state.token.as_str());
        append_chars(&mut auth, &tok);
        assert(auth@ =~= "Bearer "@ + state.token@);
        out.push(("Authorization".to_owned(), chars_to_string(&auth)));
        proof {
            assert(header_views(out@) =~~= header_views(out@.drop_last()) + seq![
                ("Authorization"@, "Bearer "@ + state.token@),
            ]);
        }
    }
    proof {
        assert(header_views(out@) =~~= upstream_headers_of(
            hv,
            state.server_url@,
            local_base_of(state.port),
            render_pairs(
                merged_cookie_pairs(
                    browser_cookie_of(hv),
                    purge_of(old(jar).model(), now),
                    path_and_query@,
                ),
            ),
            state.token@,
        ));
    }

    // target URL
    let mut url: Vec<char> = Vec::new();
    append_str(&mut url, remote);
    let pq = str_to_chars(path_and_query);
    if pq.len() == 0 {
        append_str(&mut url, "/");
    } else {
        append_chars(&mut url, &pq);
    }
    let target_url = chars_to_string(&url);
    assert(url@ =~= target_url_of(state.server_url@, path_and_query@));

    UpstreamPlan::Forward { target_url, headers: out }
}


/// One pass over the upstream response headers, threading the jar through
/// every `Set-Cookie`: hop-by-hop headers are dropped, secure cookies stay
/// in the jar while sanitized ones are echoed, a redirect `Location` under
/// the upstream base is rewritten to the loopback base, and in event-stream
/// mode any `Content-Length` is dropped. Yields the jar after all stores and
/// the downstream header list.
pub open spec fn response_fold(
    jar: Seq<CookieModel>,
    headers: Seq<(Seq<char>, Seq<char>)>,
    remote: Seq<char>,
    local: Seq<char>,
    redirect: bool,
    sse: bool,
    now: u64,
) -> (Seq<CookieModel>, Seq<(Seq<char>, Seq<char>)>)
    decreases headers.len(),
{
    if headers.len() == 0 {
        (jar, Seq::empty())
    } else {
        let name = headers[0].0;
        let value = headers[0].1;
        let l = lower(name);
        if l == "transfer-encoding"@ || l == "connection"@ {
            response_fold(jar, headers.drop_first(), remote, local, redirect, sse, now)
        } else if l == "set-cookie"@ {
            let jar2 = jar_after_store(jar, value, now);
            let res = store_result_model(value, now);
            let rest = response_fold(jar2, headers.drop_first(), remote, local, redirect, sse, now);
            match res.1 {
                Some(bc) => (rest.0, seq![("set-cookie"@, bc)] + rest.1),
                None => rest,
            }
        } else if redirect && l == "location"@ && has_prefix(value, remote) {
            let rest = response_fold(jar, headers.drop_first(), remote, local, redirect, sse, now);
            (rest.0, seq![("location"@, local + value.skip(remote.len() as int))] + rest.1)
        } else if sse && l == "content-length"@ {
            response_fold(jar, headers.drop_first(), remote, local, redirect, sse, now)
        } else {
            let rest = response_fold(jar, headers.drop_first(), remote, local, redirect, sse, now);
            (rest.0, seq![(name, value)] + rest.1)
        }
    }
}

/// The complete downstream header list for an upstream response: the folded
/// headers, plus the no-buffering headers in event-stream mode.
pub open spec fn response_headers_out(
    jar: Seq<CookieModel>,
    headers: Seq<(Seq<char>, Seq<char>)>,
    remote: Seq<char>,
    local: Seq<char>,
    status: u16,
    now: u64,
) -> Seq<(Seq<char>, Seq<char>)> {
    let sse = is_sse_headers(headers);
    let base = response_fold(jar, headers, remote, local, is_redirect_status(status), sse, now).1;
    if sse {
        base + seq![("Cache-Control"@, "no-cache"@), ("X-Accel-Buffering"@, "no"@)]
    } else {
        base
    }
}

/// What the pipeline hands downstream for one upstream response.
pub struct UpstreamResponsePlan {
    /// The status passed through verbatim.
    pub status: u16,
    /// The downstream headers, in order.
    pub headers: Vec<(String, String)>,
    /// Whether the body must be streamed chunk by chunk rather than buffered.
    pub is_sse: bool,
}

/// Plan the downstream response for an upstream answer: feed every
/// `Set-Cookie` to the jar in header order, drop secure cookies from the
/// response, rewrite a redirect `Location`, and decide streaming.
#[verifier::loop_isolation(false)]
pub fn plan_upstream_response(
    jar: &mut CookieJar,
    status: u16,
    headers: &Vec<(String, String)>,
    remote_base: &str,
    local_base: &str,
    now: u64,
) -> (r: UpstreamResponsePlan)
    requires
        old(jar).wf(),
    ensures
        final(jar).wf(),
        final(jar).persist_path() == old(jar).persist_path(),
        r.status == status,
        r.is_sse == is_sse_headers(header_views(headers@)),
        final(jar).model() == response_fold(
            old(jar).model(),
            header_views(headers@),
            remote_base@,
            local_base@,
            is_redirect_status(status),
            is_sse_headers(header_views(headers@)),
            now,
        ).0,
        header_views(r.headers@) == response_headers_out(
            old(jar).model(),
            header_views(headers@),
            remote_base@,
            local_base@,
            status,
            now,
        ),
{
    let ghost hv = header_views(headers@);
    let n = headers.len();

    // decide event-stream mode from the first Content-Type header
    let mut is_sse = false;
    let mut i: usize = 0;
    let mut found = false;
    proof {
        assert(hv.subrange(0, n as int) =~= hv);
    }
    while i < n && !found
        invariant
            0 <= i <= n,
            n == headers@.len(),
            !found ==> first_header_value(hv, "content-type"@) == first_header_value(
                hv.subrange(i as int, n as int),
                "content-type"@,
            ),
            !found ==> !is_sse,
            found ==> is_sse == is_sse_headers(hv),
        decreases n - i,
    {
        let ghost hsuf = hv.subrange(i as int, n as int);
        proof {
            assert(hsuf[0] == hv[i as int]);
            assert(hsuf.drop_first() =~= hv.subrange(i + 1, n as int));
        }
        let name_chars = str_to_chars(headers[i].0.as_str());
        let l = to_lower(&name_chars);
        if chars_eq_str(&l, "content-type") {
            let v = str_to_chars(headers[i].1.as_str());
            let pat = str_to_chars("text/event-stream");
            proof {
                reveal_strlit("text/event-stream");
            }
            is_sse = crate::strutil::contains_chars(&v, &pat);
            found = true;
        }
        i += 1;
    }
    proof {
        if !found {
            assert(hv.subrange(n as int, n as int) =~= Seq::<(Seq<char>, Seq<char>)>::empty());
        }
        assert(is_sse == is_sse_headers(hv));
    }

    let redirect = 300 <= status && status <= 399;
    let ghost rd = is_redirect_status(status);
    assert(redirect == rd);

    let remote_chars = str_to_chars(remote_base);
    let remote_len = remote_chars.len();

    let mut out: Vec<(String, String)> = Vec::new();
    let mut i: usize = 0;
    proof {
        assert(header_views(out@) =~= Seq::<(Seq<char>, Seq<char>)>::empty());
        assert(hv.subrange(0, n as int) =~= hv);
    }
    while i < n
        invariant
            0 <= i <= n,
            n == headers@.len(),
            jar.wf(),
            jar.persist_path() == old(jar).persist_path(),
            response_fold(old(jar).model(), hv, remote_base@, local_base@, rd, is_sse, now).0
                == response_fold(
                jar.model(),
                hv.subrange(i as int, n as int),
                remote_base@,
                local_base@,
                rd,
                is_sse,
                now,
            ).0,
            response_fold(old(jar).model(), hv, remote_base@, local_base@, rd, is_sse, now).1
                == header_views(out@) + response_fold(
                jar.model(),
                hv.subrange(i as int, n as int),
                remote_base@,
                local_base@,
                rd,
                is_sse,
                now,
            ).1,
        decreases n - i,
    {
        let ghost hsuf = hv.subrange(i as int, n as int);
        let ghost jar_before = jar.model();
        proof {
            assert(hsuf[0] == hv[i as int]);
            assert(hsuf.drop_first() =~= hv.subrange(i + 1, n as int));
        }
        let name_chars = str_to_chars(headers[i].0.as_str());
        let l = to_lower(&name_chars);
        if chars_eq_str(&l, "transfer-encoding") || chars_eq_str(&l, "connection") {
        } else if chars_eq_str(&l, "set-cookie") {
            let res = jar.store_cookie(headers[i].1.as_str(), now);
            match res.browser_cookie {
                Some(bc) => {
                    let ghost bcv = bc@;
                    out.push(("set-cookie".to_owned(), bc));
                    proof {
                        assert(header_views(out@) =~~= header_views(out@.drop_last()) + seq![
                            ("set-cookie"@, bcv),
                        ]);
                    }
                },
                None => {},
            }
        } else if redirect && chars_eq_str(&l, "location") && starts_with_str(
            &str_to_chars(headers[i].1.as_str()),
            remote_base,
        ) {
            let value_chars = str_to_chars(headers[i].1.as_str());
            let mut loc: Vec<char> = Vec::new();
            append_str(&mut loc, local_base);
            let tail = subvec(&value_chars, remote_len, value_chars.len());
            append_chars(&mut loc, &tail);
            proof {
                assert(loc@ =~= local_base@ + hsuf[0].1.skip(remote_base@.len() as int));
            }
            out.push(("location".to_owned(), chars_to_string(&loc)));
            proof {
                assert(header_views(out@) =~~= header_views(out@.drop_last()) + seq![
                    ("location"@, local_base@ + hsuf[0].1.skip(remote_base@.len() as int)),
                ]);
            }
        } else if is_sse && chars_eq_str(&l, "content-length") {
        } else {
            out.push((headers[i].0.clone(), headers[i].1.clone()));
            proof {
                assert(header_views(out@) =~~= header_views(out@.drop_last()) + seq![
                    (hsuf[0].0, hsuf[0].1),
                ]);
            }
        }
        proof {
            assert(response_fold(old(jar).model(), hv, remote_base@, local_base@, rd, is_sse, now).1
                =~~= header_views(out@) + response_fold(
                jar.model(),
                hv.subrange(i + 1, n as int),
                remote_base@,
                local_base@,
                rd,
                is_sse,
                now,
            ).1);
        }
        i += 1;
    }
    proof {
        assert(hv.subrange(n as int, n as int) =~= Seq::<(Seq<char>, Seq<char>)>::empty());
    }
    if is_sse {
        out.push(("Cache-Control".to_owned(), "no-cache".to_owned()));
        proof {
            assert(header_views(out@) =~~= header_views(out@.drop_last()) + seq![
                ("Cache-Control"@, "no-cache"@),
            ]);
        }
        out.push(("X-Accel-Buffering".to_owned(), "no".to_owned()));
        proof {
            assert(header_views(out@) =~~= header_views(out@.drop_last()) + seq![
                ("X-Accel-Buffering"@, "no"@),
            ]);
        }
    }
    proof {
        assert(header_views(out@) =~~= response_headers_out(
            old(jar).model(),
            hv,
            remote_base@,
            local_base@,
            status,
            now,
        ));
    }
    UpstreamResponsePlan { status, headers: out, is_sse }
}

proof fn lemma_fold_no_content_length(
    jar: Seq<CookieModel>,
    headers: Seq<(Seq<char>, Seq<char>)>,
    remote: Seq<char>,
    local: Seq<char>,
    redirect: bool,
    now: u64,
)
    ensures
        forall|i: int|
            0 <= i < response_fold(jar, headers, remote, local, redirect, true, now).1.len()
                ==> lower(
                #[trigger] response_fold(jar, headers, remote, local, redirect, true, now).1[i].0,
            ) != "content-length"@,
    decreases headers.len(),
{
    reveal_strlit("content-length");
    reveal_strlit("set-cookie");
    reveal_strlit("location");
    if headers.len() > 0 {
        let name = headers[0].0;
        let value = headers[0].1;
        let l = lower(name);
        let cur = response_fold(jar, headers, remote, local, redirect, true, now);
        if l == "transfer-encoding"@ || l == "connection"@ {
            lemma_fold_no_content_length(jar, headers.drop_first(), remote, local, redirect, now);
        } else if l == "set-cookie"@ {
            let jar2 = jar_after_store(jar, value, now);
            lemma_fold_no_content_length(jar2, headers.drop_first(), remote, local, redirect, now);
            let rest = response_fold(jar2, headers.drop_first(), remote, local, redirect, true, now);
            match store_result_model(value, now).1 {
                Some(bc) => {
                    assert forall|i: int| 0 <= i < cur.1.len() implies lower(
                        #[trigger] cur.1[i].0,
                    ) != "content-length"@ by {
                        if i == 0 {
                            assert(lower("set-cookie"@).len() == 10);
                        } else {
                            assert(cur.1[i] == rest.1[i - 1]);
                        }
                    }
                },
                None => {},
            }
        } else if redirect && l == "location"@ && has_prefix(value, remote) {
            lemma_fold_no_content_length(jar, headers.drop_first(), remote, local, redirect, now);
            let rest = response_fold(jar, headers.drop_first(), remote, local, redirect, true, now);
            assert forall|i: int| 0 <= i < cur.1.len() implies lower(#[trigger] cur.1[i].0)
                != "content-length"@ by {
                if i == 0 {
                    assert(lower("location"@).len() == 8);
                } else {
                    assert(cur.1[i] == rest.1[i - 1]);
                }
            }
        } else if l == "content-length"@ {
            lemma_fold_no_content_length(jar, headers.drop_first(), remote, local, redirect, now);
        } else {
            lemma_fold_no_content_length(jar, headers.drop_first(), remote, local, redirect, now);
            let rest = response_fold(jar, headers.drop_first(), remote, local, redirect, true, now);
            assert forall|i: int| 0 <= i < cur.1.len() implies lower(#[trigger] cur.1[i].0)
                != "content-length"@ by {
                if i == 0 {
                    assert(cur.1[0].0 == name);
                } else {
                    assert(cur.1[i] == rest.1[i - 1]);
                }
            }
        }
    }
}

/// Server-sent events pass through unbuffered: when the upstream response
/// declares an event stream, the planned downstream headers carry no
/// `Content-Length` in any position, so nothing asks the client to expect a
/// sized body.
pub proof fn lemma_sse_no_content_length(
    jar: Seq<CookieModel>,
    headers: Seq<(Seq<char>, Seq<char>)>,
    remote: Seq<char>,
    local: Seq<char>,
    status: u16,
    now: u64,
)
    requires
        is_sse_headers(headers),
    ensures
        forall|i: int|
            0 <= i < response_headers_out(jar, headers, remote, local, status, now).len() ==> lower(
                #[trigger] response_headers_out(jar, headers, remote, local, status, now)[i].0,
            ) != "content-length"@,
{
    reveal_strlit("content-length");
    reveal_strlit("Cache-Control");
    reveal_strlit("X-Accel-Buffering");
    lemma_fold_no_content_length(
        jar,
        headers,
        remote,
        local,
        is_redirect_status(status),
        now,
    );
    let base = response_fold(
        jar,
        headers,
        remote,
        local,
        is_redirect_status(status),
        true,
        now,
    ).1;
    let full = response_headers_out(jar, headers, remote, local, status, now);
    assert forall|i: int| 0 <= i < full.len() implies lower(#[trigger] full[i].0)
        != "content-length"@ by {
        if i < base.len() {
            assert(full[i] == base[i]);
        } else if i == base.len() {
            assert(full[i].0 == "Cache-Control"@);
            assert(lower(full[i].0).len() == 13);
        } else {
            assert(full[i].0 == "X-Accel-Buffering"@);
            assert(lower(full[i].0).len() == 17);
        }
    }
}


proof fn lemma_request_headers_no_auth(
    headers: Seq<(Seq<char>, Seq<char>)>,
    remote: Seq<char>,
    local: Seq<char>,
    token: Seq<char>,
)
    requires
        token.len() > 0,
    ensures
        forall|i: int|
            0 <= i < request_headers_out(headers, remote, local, token).len() ==> lower(
                #[trigger] request_headers_out(headers, remote, local, token)[i].0,
            ) != "authorization"@,
    decreases headers.len(),
{
    reveal_strlit("authorization");
    reveal_strlit("Origin");
    reveal_strlit("Referer");
    if headers.len() > 0 {
        lemma_request_headers_no_auth(headers.drop_first(), remote, local, token);
        let piece = request_header_out(headers[0].0, headers[0].1, remote, local, token);
        let rest = request_headers_out(headers.drop_first(), remote, local, token);
        let cur = request_headers_out(headers, remote, local, token);
        assert forall|i: int| 0 <= i < cur.len() implies lower(#[trigger] cur[i].0)
            != "authorization"@ by {
            if i < piece.len() {
                assert(cur[i] == piece[i]);
                let l = lower(headers[0].0);
                if l == "origin"@ {
                    assert(lower("Origin"@).len() == 6);
                } else if l == "referer"@ {
                    assert(lower("Referer"@).len() == 7);
                } else {
                    assert(piece[i].0 == headers[0].0);
                    assert(l != "authorization"@);
                }
            } else {
                assert(cur[i] == rest[i - piece.len()]);
            }
        }
    }
}

/// Auth override: with a bearer token configured, the upstream header list
/// ends in exactly one `Authorization` pair, the `Bearer` token, and no
/// client-supplied `Authorization` survives anywhere before it.
pub proof fn lemma_token_overrides_authorization(
    headers: Seq<(Seq<char>, Seq<char>)>,
    remote: Seq<char>,
    local: Seq<char>,
    merged: Seq<char>,
    token: Seq<char>,
)
    requires
        token.len() > 0,
    ensures
        ({
            let out = upstream_headers_of(headers, remote, local, merged, token);
            &&& out.len() >= 1
            &&& out.last() == ("Authorization"@, "Bearer "@ + token)
            &&& forall|i: int|
                0 <= i < out.len() - 1 ==> lower(#[trigger] out[i].0) != "authorization"@
        }),
{
    reveal_strlit("authorization");
    reveal_strlit("Cookie");
    lemma_request_headers_no_auth(headers, remote, local, token);
    let rh = request_headers_out(headers, remote, local, token);
    let ck: Seq<(Seq<char>, Seq<char>)> = if merged.len() > 0 {
        seq![("Cookie"@, merged)]
    } else {
        Seq::empty()
    };
    let out = upstream_headers_of(headers, remote, local, merged, token);
    assert(out == rh + ck + seq![("Authorization"@, "Bearer "@ + token)]);
    assert(out.last() == ("Authorization"@, "Bearer "@ + token));
    assert forall|i: int| 0 <= i < out.len() - 1 implies lower(#[trigger] out[i].0)
        != "authorization"@ by {
        if i < rh.len() {
            assert(out[i] == rh[i]);
        } else {
            assert(out[i] == ck[i - rh.len()]);
            assert(out[i].0 == "Cookie"@);
            assert(lower("Cookie"@).len() == 6);
        }
    }
}

} // verus!
