//! Proxy runtime state: the process-wide record of listener status, port,
//! upstream base URL, bearer token, auth mode and dashboard path, with the
//! canonical forms the rest of the proxy relies on.

use vstd::prelude::*;
use crate::strutil::{is_space_char, trim, trim_chars, str_to_chars, chars_to_string, subvec};

verus! {

/// `s` with every trailing `/` removed.
pub open spec fn trim_end_slashes(s: Seq<char>) -> Seq<char>
    decreases s.len(),
{
    if s.len() > 0 && s[s.len() - 1] == '/' {
        trim_end_slashes(s.drop_last())
    } else {
        s
    }
}

/// The canonical dashboard path: whitespace trimmed, trailing slashes
/// stripped, a leading slash ensured, and the empty string kept empty.
pub open spec fn normalize_dashboard(d: Seq<char>) -> Seq<char> {
    let t = trim_end_slashes(trim(d));
    if t.len() == 0 {
        t
    } else if t[0] == '/' {
        t
    } else {
        seq!['/'] + t
    }
}

proof fn lemma_tes_range(s: Seq<char>, b: int)
    requires
        0 <= b <= s.len(),
        forall|i: int| b <= i < s.len() ==> s[i] == '/',
        b > 0 ==> s[b - 1] != '/',
    ensures
        trim_end_slashes(s) == s.subrange(0, b),
    decreases s.len(),
{
    if b < s.len() {
        lemma_tes_range(s.drop_last(), b);
        assert(s.drop_last().subrange(0, b) =~= s.subrange(0, b));
    } else {
        if s.len() > 0 {
            assert(s[s.len() - 1] != '/');
        }
        assert(s.subrange(0, b) =~= s);
    }
}

/// `s` with every trailing `/` removed.
pub fn trim_end_slashes_chars(s: &Vec<char>) -> (r: Vec<char>)
    ensures
        r@ == trim_end_slashes(s@),
{
    let n = s.len();
    let mut b: usize = n;
    while b > 0 && s[b - 1] == '/'
        invariant
            0 <= b <= n,
            n == s@.len(),
            forall|i: int| b <= i < n ==> s@[i] == '/',
        decreases b,
    {
        b -= 1;
    }
    proof {
        lemma_tes_range(s@, b as int);
    }
    subvec(s, 0, b)
}

/// The canonical dashboard path as executable code.
pub fn normalize_dashboard_exec(d: &str) -> (r: String)
    ensures
        r@ == normalize_dashboard(d@),
{
    let chars = str_to_chars(d);
    let trimmed = trim_chars(&chars);
    let t = trim_end_slashes_chars(&trimmed);
    if t.len() == 0 {
        chars_to_string(&t)
    } else if t[0] == '/' {
        chars_to_string(&t)
    } else {
        let mut out: Vec<char> = Vec::new();
        out.push('/');
        crate::strutil::append_chars(&mut out, &t);
        assert(out@ =~= seq!['/'] + t@);
        chars_to_string(&out)
    }
}

/// The proxy's process-wide runtime state.
pub struct ProxyState {
    /// Whether the listener is running.
    pub running: bool,
    /// The loopback TCP port.
    pub port: u16,
    /// Upstream base URL, stored without a trailing slash.
    pub server_url: String,
    /// Bearer token injected into upstream requests; empty for none.
    pub token: String,
    /// Authentication mode tag.
    pub auth_mode: String,
    /// Server admin root path, in canonical form (leading slash, no trailing
    /// slash, empty stays empty).
    pub dashboard: String,
}

impl Default for ProxyState {
    /// The state a fresh process starts with.
    fn default() -> (r: ProxyState)
        ensures
            r.running == false,
            r.port == 15099,
            r.server_url@ == Seq::<char>::empty(),
            r.token@ == Seq::<char>::empty(),
            r.auth_mode@ == "openapi"@,
            r.dashboard@ == Seq::<char>::empty(),
    {
        ProxyState {
            running: false,
            port: 15099,
            server_url: String::new(),
            token: String::new(),
            auth_mode: "openapi".to_owned(),
            dashboard: String::new(),
        }
    }
}

impl ProxyState {
    /// Overwrite the four configurable fields; the upstream URL loses any
    /// trailing slash and the dashboard path is normalized.
    pub fn update_proxy_state(
        &mut self,
        server_url: &str,
        token: &str,
        auth_mode: &str,
        dashboard: &str,
    )
        ensures
            final(self).running == old(self).running,
            final(self).port == old(self).port,
            final(self).server_url@ == trim_end_slashes(server_url@),
            final(self).token@ == token@,
            final(self).auth_mode@ == auth_mode@,
            final(self).dashboard@ == normalize_dashboard(dashboard@),
    {
        let url_chars = str_to_chars(server_url);
        let url_canon = trim_end_slashes_chars(&url_chars);
        self.server_url = chars_to_string(&url_canon);
        self.token = token.to_owned();
        self.auth_mode = auth_mode.to_owned();
        self.dashboard = normalize_dashboard_exec(dashboard);
    }

    /// Flip the running flag.
    pub fn set_proxy_running(&mut self, running: bool)
        ensures
            final(self).running == running,
            final(self).port == old(self).port,
            final(self).server_url == old(self).server_url,
            final(self).token == old(self).token,
            final(self).auth_mode == old(self).auth_mode,
            final(self).dashboard == old(self).dashboard,
    {
        self.running = running;
    }

    /// Record the port the listener bound.
    pub fn set_port(&mut self, port: u16)
        ensures
            final(self).port == port,
            final(self).running == old(self).running,
            final(self).server_url == old(self).server_url,
            final(self).token == old(self).token,
            final(self).auth_mode == old(self).auth_mode,
            final(self).dashboard == old(self).dashboard,
    {
        self.port = port;
    }

    /// A consistent by-value snapshot of the state.
    pub fn get_proxy_state(&self) -> (r: ProxyState)
        ensures
            r.running == self.running,
            r.port == self.port,
            r.server_url@ == self.server_url@,
            r.token@ == self.token@,
            r.auth_mode@ == self.auth_mode@,
            r.dashboard@ == self.dashboard@,
    {
        ProxyState {
            running: self.running,
            port: self.port,
            server_url: self.server_url.clone(),
            token: self.token.clone(),
            auth_mode: self.auth_mode.clone(),
            dashboard: self.dashboard.clone(),
        }
    }
}

proof fn lemma_trim_ends(s: Seq<char>)
    ensures
        trim(s).len() > 0 ==> !is_space_char(trim(s)[0]),
        trim(s).len() > 0 ==> !is_space_char(trim(s)[trim(s).len() - 1]),
    decreases s.len(),
{
    if s.len() > 0 {
        if is_space_char(s[0]) {
            lemma_trim_ends(s.drop_first());
        } else if is_space_char(s[s.len() - 1]) {
            lemma_trim_ends(s.drop_last());
        }
    }
}

proof fn lemma_tes_ends(s: Seq<char>)
    ensures
        trim_end_slashes(s).len() > 0 ==> trim_end_slashes(s)[trim_end_slashes(s).len() - 1]
            != '/',
        trim_end_slashes(s).len() > 0 ==> trim_end_slashes(s)[0] == s[0],
    decreases s.len(),
{
    if s.len() > 0 && s[s.len() - 1] == '/' {
        lemma_tes_ends(s.drop_last());
    }
}

/// Dashboard normalization is idempotent. The one family of inputs left out:
/// those where stripping trailing slashes exposes trailing whitespace (for
/// example a path ending in a space followed by `/`); there a second pass
/// also trims that whitespace.
pub proof fn lemma_normalize_dashboard_idempotent(d: Seq<char>)
    requires
        normalize_dashboard(d).len() > 0 ==> !is_space_char(
            normalize_dashboard(d)[normalize_dashboard(d).len() - 1],
        ),
    ensures
        normalize_dashboard(normalize_dashboard(d)) == normalize_dashboard(d),
{
    let t = trim_end_slashes(trim(d));
    let r = normalize_dashboard(d);
    lemma_trim_ends(d);
    lemma_tes_ends(trim(d));
    if t.len() == 0 {
        assert(r.len() == 0);
        assert(trim(r) == r);
        assert(trim_end_slashes(trim(r)) == r);
    } else {
        assert(r[0] == '/') by {
            if t[0] == '/' {
                assert(r == t);
            } else {
                assert(r == seq!['/'] + t);
            }
        }
        assert(r.len() > 0);
        assert(r[r.len() - 1] == t[t.len() - 1]) by {
            if t[0] != '/' {
                assert((seq!['/'] + t)[t.len() as int] == t[t.len() - 1]);
            }
        }
        assert(!is_space_char(r[0]));
        assert(!is_space_char(r[r.len() - 1]));
        assert(trim(r) == r);
        assert(r[r.len() - 1] != '/');
        assert(trim_end_slashes(r) == r);
    }
}

} // verus!
