//! The cookie jar: parsing of `Set-Cookie` values, classification of
//! secure-only cookies, upsert / expiry / purge, and construction of the
//! `Cookie` header sent upstream.

use vstd::prelude::*;
use crate::strutil::{
    str_eq, str_to_chars, chars_to_string, trim_chars, to_lower, split_chars, split_once_chars,
    subvec, starts_with_str, chars_eq_str, append_chars, join_pieces, parse_i64, views_of,
    trim, lower, split_on, split_once_at, has_prefix, parse_i64_spec, join_with, chars_eq,
};

verus! {

/// A single cookie entry held by the jar.
pub struct CookieEntry {
    /// Cookie name, kept verbatim (including a `__Secure-` or `__Host-` prefix).
    pub name: String,
    /// Cookie value.
    pub value: String,
    /// Path scope.
    pub path: String,
    /// Expiry time in Unix seconds; 0 means a session cookie.
    pub expires_at: u64,
    /// Whether the cookie is HttpOnly.
    pub http_only: bool,
}

/// The mathematical view of a cookie entry.
#[verifier::ext_equal]
pub struct CookieModel {
    pub name: Seq<char>,
    pub value: Seq<char>,
    pub path: Seq<char>,
    pub expires_at: u64,
    pub http_only: bool,
}

impl View for CookieEntry {
    type V = CookieModel;

    open spec fn view(&self) -> CookieModel {
        CookieModel {
            name: self.name@,
            value: self.value@,
            path: self.path@,
            expires_at: self.expires_at,
            http_only: self.http_only,
        }
    }
}

/// An exact copy of a cookie entry.
pub fn clone_entry(e: &CookieEntry) -> (r: CookieEntry)
    ensures
        r@ == e@,
{
    CookieEntry {
        name: e.name.clone(),
        value: e.value.clone(),
        path: e.path.clone(),
        expires_at: e.expires_at,
        http_only: e.http_only,
    }
}

/// Whether some entry in `jar` is named `name`.
pub open spec fn has_name(jar: Seq<CookieModel>, name: Seq<char>) -> bool {
    exists|i: int| 0 <= i < jar.len() && jar[i].name == name
}

/// The value of the first entry named `name`, if any.
pub open spec fn jar_lookup(jar: Seq<CookieModel>, name: Seq<char>) -> Option<Seq<char>>
    decreases jar.len(),
{
    if jar.len() == 0 {
        None
    } else if jar[0].name == name {
        Some(jar[0].value)
    } else {
        jar_lookup(jar.drop_first(), name)
    }
}

/// A cookie still lives at time `now`.
pub open spec fn live_at(e: CookieModel, now: u64) -> bool {
    e.expires_at == 0 || e.expires_at > now
}

/// `jar` with the entries expired at `now` removed, order kept.
pub open spec fn purge_of(jar: Seq<CookieModel>, now: u64) -> Seq<CookieModel>
    decreases jar.len(),
{
    if jar.len() == 0 {
        jar
    } else if live_at(jar[0], now) {
        seq![jar[0]] + purge_of(jar.drop_first(), now)
    } else {
        purge_of(jar.drop_first(), now)
    }
}

/// `jar` with every entry named `name` removed, order kept.
pub open spec fn remove_named(jar: Seq<CookieModel>, name: Seq<char>) -> Seq<CookieModel>
    decreases jar.len(),
{
    if jar.len() == 0 {
        jar
    } else if jar[0].name == name {
        remove_named(jar.drop_first(), name)
    } else {
        seq![jar[0]] + remove_named(jar.drop_first(), name)
    }
}

/// `jar` with `e` replacing the first entry of the same name, or appended
/// when no entry has that name.
pub open spec fn upsert(jar: Seq<CookieModel>, e: CookieModel) -> Seq<CookieModel>
    decreases jar.len(),
{
    if jar.len() == 0 {
        seq![e]
    } else if jar[0].name == e.name {
        seq![e] + jar.drop_first()
    } else {
        seq![jar[0]] + upsert(jar.drop_first(), e)
    }
}

/// Entry names are pairwise distinct.
pub open spec fn names_unique(jar: Seq<CookieModel>) -> bool {
    forall|i: int, j: int| 0 <= i < j < jar.len() ==> jar[i].name != jar[j].name
}

/// The in-memory, persisted collection of cookies the proxy holds on behalf
/// of the browser. Entry names are kept unique.
pub struct CookieJar {
    entries: Vec<CookieEntry>,
    file_path: Option<String>,
}

impl CookieJar {
    /// The sequence of entry models, in insertion order.
    pub closed spec fn model(&self) -> Seq<CookieModel> {
        self.entries@.map_values(|e: CookieEntry| e@)
    }

    /// The configured persistence path, if any.
    pub closed spec fn persist_path(&self) -> Option<Seq<char>> {
        match self.file_path {
            Some(p) => Some(p@),
            None => None,
        }
    }

    /// Jar well-formedness: no two entries share a name.
    pub open spec fn wf(&self) -> bool {
        names_unique(self.model())
    }

    /// An empty jar with no persistence path.
    pub fn new() -> (r: CookieJar)
        ensures
            r.model() == Seq::<CookieModel>::empty(),
            r.persist_path() is None,
            r.wf(),
    {
        let r = CookieJar { entries: Vec::new(), file_path: None };
        assert(r.model() =~= Seq::<CookieModel>::empty());
        r
    }

    /// Set the persistence file path for the jar.
    pub fn set_cookie_file(&mut self, path: String)
        ensures
            final(self).model() == old(self).model(),
            final(self).persist_path() == Some(path@),
    {
        self.file_path = Some(path);
    }

    /// The persistence file path, for the surrounding application to write to.
    pub fn cookie_file(&self) -> (r: &Option<String>)
        ensures
            match r {
                Some(p) => self.persist_path() == Some(p@),
                None => self.persist_path() is None,
            },
    {
        &self.file_path
    }

    /// The stored entries, in insertion order.
    pub fn entries(&self) -> (r: &Vec<CookieEntry>)
        ensures
            r@.map_values(|e: CookieEntry| e@) == self.model(),
    {
        &self.entries
    }

    /// Remove every cookie from the jar.
    pub fn clear_cookies(&mut self)
        ensures
            final(self).model() == Seq::<CookieModel>::empty(),
            final(self).persist_path() == old(self).persist_path(),
            final(self).wf(),
    {
        self.entries.clear();
        assert(self.model() =~= Seq::<CookieModel>::empty());
    }

    /// The number of stored cookies.
    pub fn cookie_count(&self) -> (r: usize)
        ensures
            r == self.model().len(),
    {
        self.entries.len()
    }

    /// The value of the entry named `name`, if one is stored.
    pub fn find_cookie_value(&self, name: &str) -> (r: Option<String>)
        ensures
            match r {
                Some(v) => jar_lookup(self.model(), name@) == Some(v@),
                None => jar_lookup(self.model(), name@) is None,
            },
    {
        let n = self.entries.len();
        let mut i: usize = 0;
        proof {
            assert(self.model().subrange(0, n as int) =~= self.model());
        }
        while i < n
            invariant
                0 <= i <= n,
                n == self.entries@.len(),
                jar_lookup(self.model(), name@) == jar_lookup(
                    self.model().subrange(i as int, n as int),
                    name@,
                ),
                forall|j: int| 0 <= j < i ==> self.model()[j].name != name@,
            decreases n - i,
        {
            let ghost suffix = self.model().subrange(i as int, n as int);
            if str_eq(self.entries[i].name.as_str(), name) {
                assert(suffix[0].name == name@);
                return Some(self.entries[i].value.clone());
            }
            proof {
                assert(suffix[0].name != name@);
                assert(suffix.drop_first() =~= self.model().subrange(i + 1, n as int));
            }
            i += 1;
        }
        assert(self.model().subrange(n as int, n as int) =~= Seq::<CookieModel>::empty());
        None
    }

    /// Drop every entry that has expired by `now`.
    pub fn purge_expired(&mut self, now: u64)
        ensures
            final(self).model() == purge_of(old(self).model(), now),
            final(self).persist_path() == old(self).persist_path(),
            old(self).wf() ==> final(self).wf(),
    {
        let n = self.entries.len();
        let mut kept: Vec<CookieEntry> = Vec::new();
        let mut i: usize = 0;
        proof {
            assert(old(self).model().subrange(0, n as int) =~= old(self).model());
            assert(kept@.map_values(|e: CookieEntry| e@) =~= Seq::<CookieModel>::empty());
            assert(kept@.map_values(|e: CookieEntry| e@) + purge_of(old(self).model(), now)
                =~= purge_of(old(self).model(), now));
        }
        while i < n
            invariant
                0 <= i <= n,
                n == self.entries@.len(),
                self.entries@ == old(self).entries@,
                purge_of(old(self).model(), now) == kept@.map_values(|e: CookieEntry| e@)
                    + purge_of(old(self).model().subrange(i as int, n as int), now),
            decreases n - i,
        {
            let ghost suffix = old(self).model().subrange(i as int, n as int);
            proof {
                assert(suffix.drop_first() =~= old(self).model().subrange(i + 1, n as int));
            }
            let e = &self.entries[i];
            if e.expires_at == 0 || e.expires_at > now {
                assert(live_at(suffix[0], now));
                kept.push(clone_entry(e));
                proof {
                    assert(kept@.map_values(|x: CookieEntry| x@) =~= kept@.drop_last().map_values(
                        |x: CookieEntry| x@,
                    ) + seq![suffix[0]]);
                    assert(kept@.map_values(|x: CookieEntry| x@) + purge_of(
                        suffix.drop_first(),
                        now,
                    ) =~= kept@.drop_last().map_values(|x: CookieEntry| x@) + purge_of(
                        suffix,
                        now,
                    ));
                }
            } else {
                assert(!live_at(suffix[0], now));
            }
            i += 1;
        }
        proof {
            assert(old(self).model().subrange(n as int, n as int) =~= Seq::<
                CookieModel,
            >::empty());
            assert(purge_of(Seq::<CookieModel>::empty(), now) =~= Seq::<CookieModel>::empty());
            assert(kept@.map_values(|e: CookieEntry| e@) =~= purge_of(old(self).model(), now));
        }
        self.entries = kept;
        proof {
            if old(self).wf() {
                lemma_purge_wf(old(self).model(), now);
            }
        }
    }
}

/// Purging keeps a subsequence: every kept entry occurs in the original, and
/// name uniqueness carries over.
proof fn lemma_purge_wf(jar: Seq<CookieModel>, now: u64)
    requires
        names_unique(jar),
    ensures
        names_unique(purge_of(jar, now)),
        forall|i: int| 0 <= i < purge_of(jar, now).len() ==> #[trigger] has_name(
            jar,
            purge_of(jar, now)[i].name,
        ),
    decreases jar.len(),
{
    if jar.len() > 0 {
        let rest = jar.drop_first();
        assert(names_unique(rest));
        lemma_purge_wf(rest, now);
        let pr = purge_of(rest, now);
        assert forall|i: int| 0 <= i < pr.len() implies has_name(jar, pr[i].name) by {
            assert(has_name(rest, pr[i].name));
            let w = choose|k: int| 0 <= k < rest.len() && rest[k].name == pr[i].name;
            assert(jar[w + 1].name == pr[i].name);
        }
        if live_at(jar[0], now) {
            let p = purge_of(jar, now);
            assert(p == seq![jar[0]] + pr);
            assert forall|i: int, j: int| 0 <= i < j < p.len() implies p[i].name != p[j].name by {
                if i == 0 {
                    assert(has_name(rest, p[j].name));
                    let w = choose|k: int|
                        0 <= k < rest.len() && rest[k].name == p[j].name;
                    assert(jar[0].name != rest[w].name);
                } else {
                    assert(p[i] == pr[i - 1] && p[j] == pr[j - 1]);
                }
            }
        }
    }
}


/// The result of feeding one `Set-Cookie` value to the jar.
pub struct StoreCookieResult {
    /// The cookie is secure-only: the plain-HTTP loopback origin cannot host it.
    pub is_secure: bool,
    /// A sanitized `Set-Cookie` string for the browser; `None` when secure-only.
    pub browser_cookie: Option<String>,
}

/// The attributes of a `Set-Cookie` value after scanning, together with the
/// flags that drive classification and sanitizing.
#[verifier::ext_equal]
pub struct SetCookieParse {
    pub name: Seq<char>,
    pub value: Seq<char>,
    pub path: Seq<char>,
    pub expires_at: u64,
    pub http_only: bool,
    pub secure_flag: bool,
    pub samesite_none: bool,
}

/// What one `Set-Cookie` value asks of the jar.
pub enum SetCookieOutcome {
    /// Malformed (no `name=value`, or empty name): no effect.
    Ignore,
    /// A non-positive `Max-Age`: drop the entry of that name.
    Delete { name: Seq<char> },
    /// Store (upsert) the parsed entry.
    Store { parse: SetCookieParse },
}

/// The parse state before any attribute is scanned.
pub open spec fn init_parse(name: Seq<char>, value: Seq<char>) -> SetCookieParse {
    SetCookieParse {
        name,
        value,
        path: "/"@,
        expires_at: 0,
        http_only: false,
        secure_flag: false,
        samesite_none: false,
    }
}

/// `now + secs`, saturating at the top of `u64`.
pub open spec fn expiry_from(now: u64, secs: int) -> u64 {
    if now + secs <= u64::MAX {
        (now + secs) as u64
    } else {
        u64::MAX
    }
}

/// One attribute applied to the parse state; `None` means a non-positive
/// `Max-Age` asked for deletion.
pub open spec fn apply_attr(st: SetCookieParse, attr: Seq<char>, now: u64) -> Option<
    SetCookieParse,
> {
    let t = trim(attr);
    let l = lower(t);
    if has_prefix(l, "path="@) {
        Some(SetCookieParse { path: trim(t.subrange(5, t.len() as int)), ..st })
    } else if has_prefix(l, "max-age="@) {
        match parse_i64_spec(trim(t.subrange(8, t.len() as int))) {
            Some(secs) => if secs > 0 {
                Some(SetCookieParse { expires_at: expiry_from(now, secs as int), ..st })
            } else {
                None
            },
            None => Some(st),
        }
    } else if l == "httponly"@ {
        Some(SetCookieParse { http_only: true, ..st })
    } else if l == "secure"@ {
        Some(SetCookieParse { secure_flag: true, ..st })
    } else if l == "samesite=none"@ {
        Some(SetCookieParse { samesite_none: true, ..st })
    } else {
        Some(st)
    }
}

/// All attributes applied in order; `None` as soon as one asks for deletion.
pub open spec fn scan_attrs(attrs: Seq<Seq<char>>, st: SetCookieParse, now: u64) -> Option<
    SetCookieParse,
>
    decreases attrs.len(),
{
    if attrs.len() == 0 {
        Some(st)
    } else {
        match apply_attr(st, attrs[0], now) {
            None => None,
            Some(st2) => scan_attrs(attrs.drop_first(), st2, now),
        }
    }
}

/// What one raw `Set-Cookie` value asks of the jar at time `now`.
pub open spec fn set_cookie_outcome(raw: Seq<char>, now: u64) -> SetCookieOutcome {
    let parts = split_on(raw, ';');
    match split_once_at(trim(parts[0]), '=') {
        None => SetCookieOutcome::Ignore,
        Some(nv) => {
            let name = trim(nv.0);
            let value = trim(nv.1);
            if name.len() == 0 {
                SetCookieOutcome::Ignore
            } else {
                match scan_attrs(parts.drop_first(), init_parse(name, value), now) {
                    None => SetCookieOutcome::Delete { name },
                    Some(p) => SetCookieOutcome::Store { parse: p },
                }
            }
        },
    }
}

/// A cookie that a plain-HTTP origin cannot host: it carries the `Secure`
/// attribute or a `__Secure-` / `__Host-` name prefix.
pub open spec fn is_secure_of(p: SetCookieParse) -> bool {
    p.secure_flag || has_prefix(p.name, "__Secure-"@) || has_prefix(p.name, "__Host-"@)
}

/// An attribute kept in the sanitized browser cookie: everything but
/// `Secure`, `Domain=...` and `SameSite=None`.
pub open spec fn keep_attr(a: Seq<char>) -> bool {
    let l = lower(trim(a));
    !(l == "secure"@ || has_prefix(l, "domain="@) || l == "samesite=none"@)
}

/// The kept attributes, trimmed, in order.
pub open spec fn kept_attrs(attrs: Seq<Seq<char>>) -> Seq<Seq<char>>
    decreases attrs.len(),
{
    if attrs.len() == 0 {
        Seq::empty()
    } else if keep_attr(attrs[0]) {
        seq![trim(attrs[0])] + kept_attrs(attrs.drop_first())
    } else {
        kept_attrs(attrs.drop_first())
    }
}

/// The sanitized `Set-Cookie` text echoed to the browser for a stored,
/// non-secure cookie: `name=value`, the kept attributes, and `SameSite=Lax`
/// when the original said `SameSite=None`.
pub open spec fn browser_cookie_text(raw: Seq<char>, p: SetCookieParse) -> Seq<char> {
    let parts = split_on(raw, ';');
    let pieces = seq![p.name + "="@ + p.value] + kept_attrs(parts.drop_first()) + (
    if p.samesite_none {
        seq!["SameSite=Lax"@]
    } else {
        Seq::empty()
    });
    join_with(pieces, "; "@)
}

/// The model of the entry stored for a parsed `Set-Cookie`.
pub open spec fn entry_of(p: SetCookieParse) -> CookieModel {
    CookieModel {
        name: p.name,
        value: p.value,
        path: p.path,
        expires_at: p.expires_at,
        http_only: p.http_only,
    }
}

/// The `(is_secure, browser_cookie)` pair `store_cookie` returns.
pub open spec fn store_result_model(raw: Seq<char>, now: u64) -> (bool, Option<Seq<char>>) {
    match set_cookie_outcome(raw, now) {
        SetCookieOutcome::Ignore => (false, None),
        SetCookieOutcome::Delete { .. } => (false, None),
        SetCookieOutcome::Store { parse: p } => if is_secure_of(p) {
            (true, None)
        } else {
            (false, Some(browser_cookie_text(raw, p)))
        },
    }
}

/// The jar contents after one `Set-Cookie` value is applied.
pub open spec fn jar_after_store(jar: Seq<CookieModel>, raw: Seq<char>, now: u64) -> Seq<
    CookieModel,
> {
    match set_cookie_outcome(raw, now) {
        SetCookieOutcome::Ignore => jar,
        SetCookieOutcome::Delete { name } => remove_named(jar, name),
        SetCookieOutcome::Store { parse: p } => upsert(jar, entry_of(p)),
    }
}

proof fn lemma_remove_wf(jar: Seq<CookieModel>, name: Seq<char>)
    requires
        names_unique(jar),
    ensures
        names_unique(remove_named(jar, name)),
        forall|i: int| 0 <= i < remove_named(jar, name).len() ==> #[trigger] has_name(
            jar,
            remove_named(jar, name)[i].name,
        ),
    decreases jar.len(),
{
    if jar.len() > 0 {
        let rest = jar.drop_first();
        assert(names_unique(rest));
        lemma_remove_wf(rest, name);
        let pr = remove_named(rest, name);
        assert forall|i: int| 0 <= i < pr.len() implies has_name(jar, pr[i].name) by {
            assert(has_name(rest, pr[i].name));
            let w = choose|k: int| 0 <= k < rest.len() && rest[k].name == pr[i].name;
            assert(jar[w + 1].name == pr[i].name);
        }
        if jar[0].name != name {
            let p = remove_named(jar, name);
            assert(p == seq![jar[0]] + pr);
            assert forall|i: int, j: int| 0 <= i < j < p.len() implies p[i].name != p[j].name by {
                if i == 0 {
                    assert(has_name(rest, p[j].name));
                    let w = choose|k: int| 0 <= k < rest.len() && rest[k].name == p[j].name;
                    assert(jar[0].name != rest[w].name);
                } else {
                    assert(p[i] == pr[i - 1] && p[j] == pr[j - 1]);
                }
            }
        }
    }
}

proof fn lemma_upsert_found(jar: Seq<CookieModel>, e: CookieModel, k: int)
    requires
        0 <= k < jar.len(),
        jar[k].name == e.name,
        forall|j: int| 0 <= j < k ==> jar[j].name != e.name,
    ensures
        upsert(jar, e) == jar.update(k, e),
    decreases jar.len(),
{
    if k == 0 {
        assert(seq![e] + jar.drop_first() =~= jar.update(0, e));
    } else {
        assert(jar[0].name != e.name);
        lemma_upsert_found(jar.drop_first(), e, k - 1);
        assert(jar.drop_first().update(k - 1, e) =~= jar.update(k, e).drop_first());
        assert(seq![jar[0]] + jar.update(k, e).drop_first() =~= jar.update(k, e));
    }
}

proof fn lemma_upsert_missing(jar: Seq<CookieModel>, e: CookieModel)
    requires
        forall|i: int| 0 <= i < jar.len() ==> jar[i].name != e.name,
    ensures
        upsert(jar, e) == jar.push(e),
    decreases jar.len(),
{
    if jar.len() == 0 {
        assert(upsert(jar, e) =~= jar.push(e));
    } else {
        lemma_upsert_missing(jar.drop_first(), e);
        assert(jar.drop_first().push(e) =~= jar.push(e).drop_first());
        assert(seq![jar[0]] + jar.push(e).drop_first() =~= jar.push(e));
    }
}

impl CookieJar {
    /// Remove every entry named `name`, keeping the rest in order.
    fn remove_cookie(&mut self, name: &String)
        ensures
            final(self).model() == remove_named(old(self).model(), name@),
            final(self).persist_path() == old(self).persist_path(),
            old(self).wf() ==> final(self).wf(),
    {
        let n = self.entries.len();
        let mut kept: Vec<CookieEntry> = Vec::new();
        let mut i: usize = 0;
        proof {
            assert(old(self).model().subrange(0, n as int) =~= old(self).model());
            assert(kept@.map_values(|e: CookieEntry| e@) + remove_named(old(self).model(), name@)
                =~= remove_named(old(self).model(), name@));
        }
        while i < n
            invariant
                0 <= i <= n,
                n == self.entries@.len(),
                self.entries@ == old(self).entries@,
                remove_named(old(self).model(), name@) == kept@.map_values(|e: CookieEntry| e@)
                    + remove_named(old(self).model().subrange(i as int, n as int), name@),
            decreases n - i,
        {
            let ghost suffix = old(self).model().subrange(i as int, n as int);
            proof {
                assert(suffix.drop_first() =~= old(self).model().subrange(i + 1, n as int));
            }
            let e = &self.entries[i];
            if !str_eq(e.name.as_str(), name.as_str()) {
                assert(suffix[0].name != name@);
                kept.push(clone_entry(e));
                proof {
                    assert(kept@.map_values(|x: CookieEntry| x@) =~= kept@.drop_last().map_values(
                        |x: CookieEntry| x@,
                    ) + seq![suffix[0]]);
                    assert(kept@.map_values(|x: CookieEntry| x@) + remove_named(
                        suffix.drop_first(),
                        name@,
                    ) =~= kept@.drop_last().map_values(|x: CookieEntry| x@) + remove_named(
                        suffix,
                        name@,
                    ));
                }
            } else {
                assert(suffix[0].name == name@);
            }
            i += 1;
        }
        proof {
            assert(old(self).model().subrange(n as int, n as int) =~= Seq::<
                CookieModel,
            >::empty());
            assert(kept@.map_values(|e: CookieEntry| e@) =~= remove_named(
                old(self).model(),
                name@,
            ));
        }
        self.entries = kept;
        proof {
            if old(self).wf() {
                lemma_remove_wf(old(self).model(), name@);
            }
        }
    }

    /// Replace the entry of the same name, or append the new entry.
    fn upsert_entry(&mut self, e: CookieEntry)
        requires
            old(self).wf(),
        ensures
            final(self).model() == upsert(old(self).model(), e@),
            final(self).persist_path() == old(self).persist_path(),
            final(self).wf(),
    {
        let n = self.entries.len();
        let mut i: usize = 0;
        while i < n
            invariant
                0 <= i <= n,
                n == self.entries@.len(),
                self.entries@ == old(self).entries@,
                self.file_path == old(self).file_path,
                names_unique(old(self).model()),
                forall|j: int| 0 <= j < i ==> old(self).model()[j].name != e@.name,
            decreases n - i,
        {
            if str_eq(self.entries[i].name.as_str(), e.name.as_str()) {
                assert(old(self).model()[i as int].name == e@.name);
                proof {
                    lemma_upsert_found(old(self).model(), e@, i as int);
                }
                let ghost before = self.entries@;
                let ghost ee = e;
                let slot = vstd::std_specs::vec::vec_index_mut(&mut self.entries, i);
                *slot = e;
                proof {
                    assert(self.entries@ == before.update(i as int, ee));
                    assert(self.model() =~= old(self).model().update(i as int, ee@));
                    assert(ee@.name == old(self).model()[i as int].name);
                    assert forall|a: int, b: int|
                        0 <= a < b < self.model().len() implies self.model()[a].name
                        != self.model()[b].name by {
                        assert(old(self).model()[a].name != old(self).model()[b].name);
                        assert(self.model()[a] == if a == i as int {
                            ee@
                        } else {
                            old(self).model()[a]
                        });
                        assert(self.model()[b] == if b == i as int {
                            ee@
                        } else {
                            old(self).model()[b]
                        });
                    }
                }
                return ;
            }
            i += 1;
        }
        proof {
            lemma_upsert_missing(old(self).model(), e@);
        }
        let ghost ev = e@;
        self.entries.push(e);
        proof {
            assert(self.model() =~= old(self).model().push(ev));
            assert forall|a: int, b: int| 0 <= a < b < self.model().len() implies self.model(
            )[a].name != self.model()[b].name by {
                if b < self.model().len() - 1 {
                    assert(old(self).model()[a].name != old(self).model()[b].name);
                } else {
                    assert(old(self).model()[a].name != ev.name);
                }
            }
        }
    }

    /// Parse one `Set-Cookie` value, apply it to the jar, and report how the
    /// cookie classifies and what, if anything, to echo to the browser.
    #[verifier::loop_isolation(false)]
    pub fn store_cookie(&mut self, set_cookie: &str, now: u64) -> (r: StoreCookieResult)
        requires
            old(self).wf(),
        ensures
            final(self).wf(),
            final(self).model() == jar_after_store(old(self).model(), set_cookie@, now),
            final(self).persist_path() == old(self).persist_path(),
            r.is_secure == store_result_model(set_cookie@, now).0,
            match r.browser_cookie {
                Some(s) => store_result_model(set_cookie@, now).1 == Some(s@),
                None => store_result_model(set_cookie@, now).1 is None,
            },
    {
        let chars = str_to_chars(set_cookie);
        let parts = split_chars(&chars, ';');
        let ghost part_views = views_of(parts@);
        let ghost attrs = part_views.drop_first();
        let nv = trim_chars(&parts[0]);
        let pair = match split_once_chars(&nv, '=') {
            None => {
                assert(set_cookie_outcome(set_cookie@, now) is Ignore);
                return StoreCookieResult { is_secure: false, browser_cookie: None };
            },
            Some(p) => p,
        };
        let name = trim_chars(&pair.0);
        let value = trim_chars(&pair.1);
        proof {
            assert(part_views[0] == parts@[0]@);
            assert(nv@ == trim(part_views[0]));
            assert(split_once_at(nv@, '=') is Some);
            assert(name@ == trim(split_once_at(nv@, '=').unwrap().0));
            assert(value@ == trim(split_once_at(nv@, '=').unwrap().1));
        }
        if name.len() == 0 {
            assert(set_cookie_outcome(set_cookie@, now) is Ignore);
            return StoreCookieResult { is_secure: false, browser_cookie: None };
        }
        let ghost st0 = init_parse(name@, value@);

        let mut path = str_to_chars("/");
        let mut expires_at: u64 = 0;
        let mut http_only = false;
        let mut secure_flag = false;
        let mut samesite_none = false;
        let np = parts.len();
        let mut i: usize = 1;
        proof {
            assert(attrs.subrange(0, attrs.len() as int) =~= attrs);
        }
        while i < np
            invariant
                1 <= i <= np,
                np == parts@.len(),
                np == part_views.len(),
                part_views == views_of(parts@),
                attrs == part_views.drop_first(),
                st0 == init_parse(name@, value@),
                self.entries@ == old(self).entries@,
                self.file_path == old(self).file_path,
                names_unique(old(self).model()),
                scan_attrs(attrs, st0, now) == scan_attrs(
                    attrs.subrange(i - 1, attrs.len() as int),
                    (SetCookieParse {
                        name: name@,
                        value: value@,
                        path: path@,
                        expires_at: expires_at,
                        http_only: http_only,
                        secure_flag: secure_flag,
                        samesite_none: samesite_none,
                    }),
                    now,
                ),
            decreases np - i,
        {
            let ghost st_now = SetCookieParse {
                name: name@,
                value: value@,
                path: path@,
                expires_at: expires_at,
                http_only: http_only,
                secure_flag: secure_flag,
                samesite_none: samesite_none,
            };
            let ghost asuf = attrs.subrange(i - 1, attrs.len() as int);
            proof {
                assert(asuf[0] == part_views[i as int]);
                assert(asuf.drop_first() =~= attrs.subrange(i as int, attrs.len() as int));
            }
            let t = trim_chars(&parts[i]);
            let l = to_lower(&t);
            if starts_with_str(&l, "path=") {
                proof {
                    reveal_strlit("path=");
                    assert(l@.len() == t@.len());
                }
                let rest = subvec(&t, 5, t.len());
                path = trim_chars(&rest);
            } else if starts_with_str(&l, "max-age=") {
                proof {
                    reveal_strlit("path=");
                    reveal_strlit("max-age=");
                    assert(l@.len() == t@.len());
                    assert(!has_prefix(l@, "path="@)) by {
                        if has_prefix(l@, "path="@) {
                            assert(l@.subrange(0, 5) == "path="@);
                            assert(l@.subrange(0, 8) == "max-age="@);
                            assert(l@.subrange(0, 5)[0] == l@.subrange(0, 8)[0]);
                        }
                    }
                }
                let rest = subvec(&t, 8, t.len());
                let numtxt = trim_chars(&rest);
                match parse_i64(&numtxt) {
                    Some(secs) => {
                        if secs > 0 {
                            let secs_u = secs as u64;
                            expires_at = if now <= u64::MAX - secs_u {
                                now + secs_u
                            } else {
                                u64::MAX
                            };
                            assert(expires_at == expiry_from(now, secs as int));
                        } else {
                            // a non-positive Max-Age deletes the entry outright
                            assert(apply_attr(st_now, asuf[0], now) is None);
                            assert(scan_attrs(attrs, st0, now) is None);
                            assert(set_cookie_outcome(set_cookie@, now) == (
                            SetCookieOutcome::Delete { name: name@ }));
                            let name_s = chars_to_string(&name);
                            self.remove_cookie(&name_s);
                            return StoreCookieResult { is_secure: false, browser_cookie: None };
                        }
                    },
                    None => {
                    },
                }
            } else if chars_eq_str(&l, "httponly") {
                http_only = true;
            } else if chars_eq_str(&l, "secure") {
                secure_flag = true;
            } else if chars_eq_str(&l, "samesite=none") {
                samesite_none = true;
            }
            i += 1;
        }
        proof {
            assert(attrs.subrange(np - 1, attrs.len() as int) =~= Seq::<Seq<char>>::empty());
        }
        let ghost p = SetCookieParse {
            name: name@,
            value: value@,
            path: path@,
            expires_at: expires_at,
            http_only: http_only,
            secure_flag: secure_flag,
            samesite_none: samesite_none,
        };
        assert(scan_attrs(attrs, st0, now) == Some(p));
        assert(set_cookie_outcome(set_cookie@, now) == (SetCookieOutcome::Store { parse: p }));

        let is_secure = secure_flag || starts_with_str(&name, "__Secure-") || starts_with_str(
            &name,
            "__Host-",
        );
        assert(is_secure == is_secure_of(p));

        let entry = CookieEntry {
            name: chars_to_string(&name),
            value: chars_to_string(&value),
            path: chars_to_string(&path),
            expires_at,
            http_only,
        };
        assert(entry@ =~= entry_of(p));
        self.upsert_entry(entry);

        if is_secure {
            return StoreCookieResult { is_secure: true, browser_cookie: None };
        }

        // Rebuild the attribute list for the browser: drop Secure, Domain=...,
        // SameSite=None; append SameSite=Lax when the original said None.
        let mut pieces: Vec<Vec<char>> = Vec::new();
        let mut head: Vec<char> = Vec::new();
        append_chars(&mut head, &name);
        head.push('=');
        append_chars(&mut head, &value);
        proof {
            reveal_strlit("=");
            assert("="@ =~= seq!['=']);
            assert(head@ =~= p.name + "="@ + p.value);
        }
        pieces.push(head);
        let mut i: usize = 1;
        proof {
            assert(views_of(pieces@) =~= seq![p.name + "="@ + p.value]);
            assert(views_of(pieces@).drop_first() =~= Seq::<Seq<char>>::empty());
            assert(attrs.subrange(0, attrs.len() as int) =~= attrs);
        }
        while i < np
            invariant
                1 <= i <= np,
                np == parts@.len(),
                np == part_views.len(),
                part_views == views_of(parts@),
                attrs == part_views.drop_first(),
                pieces@.len() >= 1,
                views_of(pieces@)[0] == p.name + "="@ + p.value,
                kept_attrs(attrs) == views_of(pieces@).drop_first() + kept_attrs(
                    attrs.subrange(i - 1, attrs.len() as int),
                ),
            decreases np - i,
        {
            let ghost asuf = attrs.subrange(i - 1, attrs.len() as int);
            proof {
                assert(asuf[0] == part_views[i as int]);
                assert(asuf.drop_first() =~= attrs.subrange(i as int, attrs.len() as int));
            }
            let t = trim_chars(&parts[i]);
            let l = to_lower(&t);
            let dropped = chars_eq_str(&l, "secure") || starts_with_str(&l, "domain=")
                || chars_eq_str(&l, "samesite=none");
            assert(dropped == !keep_attr(asuf[0]));
            if !dropped {
                pieces.push(t);
                proof {
                    assert(views_of(pieces@) =~= views_of(pieces@.drop_last()) + seq![trim(
                        asuf[0],
                    )]);
                    assert(views_of(pieces@).drop_first() =~= views_of(
                        pieces@.drop_last(),
                    ).drop_first() + seq![trim(asuf[0])]);
                    assert(views_of(pieces@).drop_first() + kept_attrs(asuf.drop_first())
                        =~= views_of(pieces@.drop_last()).drop_first() + kept_attrs(asuf));
                }
            }
            i += 1;
        }
        proof {
            assert(attrs.subrange(np - 1, attrs.len() as int) =~= Seq::<Seq<char>>::empty());
        }
        if samesite_none {
            let lax = str_to_chars("SameSite=Lax");
            pieces.push(lax);
            proof {
                assert(views_of(pieces@) =~= views_of(pieces@.drop_last()) + seq![
                    "SameSite=Lax"@,
                ]);
            }
        }
        proof {
            assert(views_of(pieces@) =~= seq![p.name + "="@ + p.value] + kept_attrs(attrs) + (
            if p.samesite_none {
                seq!["SameSite=Lax"@]
            } else {
                Seq::<Seq<char>>::empty()
            }));
        }
        let joined = join_pieces(&pieces, "; ");
        let browser = chars_to_string(&joined);
        assert(browser@ == browser_cookie_text(set_cookie@, p));
        StoreCookieResult { is_secure: false, browser_cookie: Some(browser) }
    }
}


/// The views of an association list of character vectors.
pub open spec fn pair_views(s: Seq<(Vec<char>, Vec<char>)>) -> Seq<(Seq<char>, Seq<char>)> {
    s.map_values(|p: (Vec<char>, Vec<char>)| (p.0@, p.1@))
}

/// Insert `(k, v)` into the association list: the first pair keyed `k` is
/// replaced in place, otherwise the pair is appended.
pub open spec fn assoc_upsert(
    m: Seq<(Seq<char>, Seq<char>)>,
    k: Seq<char>,
    v: Seq<char>,
) -> Seq<(Seq<char>, Seq<char>)>
    decreases m.len(),
{
    if m.len() == 0 {
        seq![(k, v)]
    } else if m[0].0 == k {
        seq![(k, v)] + m.drop_first()
    } else {
        seq![m[0]] + assoc_upsert(m.drop_first(), k, v)
    }
}

/// The value the association list holds for `k`, if any.
pub open spec fn assoc_get(m: Seq<(Seq<char>, Seq<char>)>, k: Seq<char>) -> Option<Seq<char>>
    decreases m.len(),
{
    if m.len() == 0 {
        None
    } else if m[0].0 == k {
        Some(m[0].1)
    } else {
        assoc_get(m.drop_first(), k)
    }
}

/// The browser `Cookie` header pieces folded into the map, left to right;
/// a later duplicate name overwrites an earlier one.
pub open spec fn insert_browser_pairs(
    m: Seq<(Seq<char>, Seq<char>)>,
    pieces: Seq<Seq<char>>,
) -> Seq<(Seq<char>, Seq<char>)>
    decreases pieces.len(),
{
    if pieces.len() == 0 {
        m
    } else {
        let t = trim(pieces[0]);
        match split_once_at(t, '=') {
            Some(nv) => insert_browser_pairs(
                assoc_upsert(m, trim(nv.0), trim(nv.1)),
                pieces.drop_first(),
            ),
            None => insert_browser_pairs(m, pieces.drop_first()),
        }
    }
}

/// The name-to-value map parsed from a browser `Cookie` header.
pub open spec fn browser_map_of(header: Seq<char>) -> Seq<(Seq<char>, Seq<char>)> {
    if header.len() == 0 {
        Seq::empty()
    } else {
        insert_browser_pairs(Seq::empty(), split_on(header, ';'))
    }
}

/// The jar entries whose path is a literal prefix of `req_path` folded over
/// the map, in jar order; the jar wins on a name conflict.
pub open spec fn merge_jar_pairs(
    m: Seq<(Seq<char>, Seq<char>)>,
    jar: Seq<CookieModel>,
    req_path: Seq<char>,
) -> Seq<(Seq<char>, Seq<char>)>
    decreases jar.len(),
{
    if jar.len() == 0 {
        m
    } else if has_prefix(req_path, jar[0].path) {
        merge_jar_pairs(assoc_upsert(m, jar[0].name, jar[0].value), jar.drop_first(), req_path)
    } else {
        merge_jar_pairs(m, jar.drop_first(), req_path)
    }
}

/// The merged cookie map for one upstream request.
pub open spec fn merged_cookie_pairs(
    header: Seq<char>,
    jar: Seq<CookieModel>,
    req_path: Seq<char>,
) -> Seq<(Seq<char>, Seq<char>)> {
    merge_jar_pairs(browser_map_of(header), jar, req_path)
}

/// The map rendered as a `Cookie` header value: `n1=v1; n2=v2; ...`.
pub open spec fn render_pairs(m: Seq<(Seq<char>, Seq<char>)>) -> Seq<char> {
    join_with(m.map_values(|p: (Seq<char>, Seq<char>)| p.0 + "="@ + p.1), "; "@)
}

/// The jar-only `Cookie` header pieces for `req`, in insertion order.
pub open spec fn header_pairs(jar: Seq<CookieModel>, req: Seq<char>) -> Seq<Seq<char>>
    decreases jar.len(),
{
    if jar.len() == 0 {
        Seq::empty()
    } else if has_prefix(req, jar[0].path) {
        seq![jar[0].name + "="@ + jar[0].value] + header_pairs(jar.drop_first(), req)
    } else {
        header_pairs(jar.drop_first(), req)
    }
}

proof fn lemma_assoc_upsert_found(m: Seq<(Seq<char>, Seq<char>)>, k: Seq<char>, v: Seq<char>, at: int)
    requires
        0 <= at < m.len(),
        m[at].0 == k,
        forall|j: int| 0 <= j < at ==> m[j].0 != k,
    ensures
        assoc_upsert(m, k, v) == m.update(at, (k, v)),
    decreases m.len(),
{
    if at == 0 {
        assert(seq![(k, v)] + m.drop_first() =~= m.update(0, (k, v)));
    } else {
        assert(m[0].0 != k);
        lemma_assoc_upsert_found(m.drop_first(), k, v, at - 1);
        assert(m.drop_first().update(at - 1, (k, v)) =~= m.update(at, (k, v)).drop_first());
        assert(seq![m[0]] + m.update(at, (k, v)).drop_first() =~= m.update(at, (k, v)));
    }
}

proof fn lemma_assoc_upsert_missing(m: Seq<(Seq<char>, Seq<char>)>, k: Seq<char>, v: Seq<char>)
    requires
        forall|j: int| 0 <= j < m.len() ==> m[j].0 != k,
    ensures
        assoc_upsert(m, k, v) == m.push((k, v)),
    decreases m.len(),
{
    if m.len() == 0 {
        assert(assoc_upsert(m, k, v) =~= m.push((k, v)));
    } else {
        lemma_assoc_upsert_missing(m.drop_first(), k, v);
        assert(m.drop_first().push((k, v)) =~= m.push((k, v)).drop_first());
        assert(seq![m[0]] + m.push((k, v)).drop_first() =~= m.push((k, v)));
    }
}

/// Insert `(k, v)` into the association list, replacing in place or appending.
#[verifier::loop_isolation(false)]
fn assoc_upsert_exec(m: &mut Vec<(Vec<char>, Vec<char>)>, k: Vec<char>, v: Vec<char>)
    ensures
        pair_views(final(m)@) == assoc_upsert(pair_views(old(m)@), k@, v@),
{
    let n = m.len();
    let ghost kk = k@;
    let ghost vv = v@;
    let mut i: usize = 0;
    while i < n
        invariant
            0 <= i <= n,
            n == m@.len(),
            m@ == old(m)@,
            forall|j: int| 0 <= j < i ==> pair_views(old(m)@)[j].0 != kk,
        decreases n - i,
    {
        if chars_eq(&m[i].0, &k) {
            assert(pair_views(old(m)@)[i as int].0 == kk);
            proof {
                lemma_assoc_upsert_found(pair_views(old(m)@), kk, vv, i as int);
            }
            let ghost before = m@;
            let pair = (k, v);
            let ghost pv = pair;
            let slot = vstd::std_specs::vec::vec_index_mut(m, i);
            *slot = pair;
            proof {
                assert(m@ == before.update(i as int, pv));
                assert(pair_views(m@) =~= pair_views(old(m)@).update(i as int, (kk, vv)));
            }
            return ;
        }
        i += 1;
    }
    proof {
        lemma_assoc_upsert_missing(pair_views(old(m)@), kk, vv);
    }
    m.push((k, v));
    proof {
        assert(pair_views(m@) =~= pair_views(old(m)@).push((kk, vv)));
    }
}

impl CookieJar {
    /// Build the upstream `Cookie` header: the browser header parsed into a
    /// map, overwritten by every jar entry whose path is a literal prefix of
    /// the request path. Expired entries are purged first.
    #[verifier::loop_isolation(false)]
    pub fn get_merged_cookies(
        &mut self,
        browser_cookie_header: &str,
        request_path: &str,
        now: u64,
    ) -> (r: String)
        requires
            old(self).wf(),
        ensures
            final(self).wf(),
            final(self).model() == purge_of(old(self).model(), now),
            final(self).persist_path() == old(self).persist_path(),
            r@ == render_pairs(
                merged_cookie_pairs(
                    browser_cookie_header@,
                    purge_of(old(self).model(), now),
                    request_path@,
                ),
            ),
    {
        self.purge_expired(now);
        let ghost purged = self.model();
        let header = str_to_chars(browser_cookie_header);
        let req = str_to_chars(request_path);
        let mut map: Vec<(Vec<char>, Vec<char>)> = Vec::new();
        if header.len() > 0 {
            let pieces = split_chars(&header, ';');
            let ghost piece_views = views_of(pieces@);
            let np = pieces.len();
            let mut i: usize = 0;
            proof {
                assert(pair_views(map@) =~= Seq::<(Seq<char>, Seq<char>)>::empty());
                assert(piece_views.subrange(0, np as int) =~= piece_views);
            }
            while i < np
                invariant
                    0 <= i <= np,
                    np == pieces@.len(),
                    browser_map_of(header@) == insert_browser_pairs(
                        pair_views(map@),
                        piece_views.subrange(i as int, np as int),
                    ),
                decreases np - i,
            {
                let ghost psuf = piece_views.subrange(i as int, np as int);
                proof {
                    assert(psuf[0] == piece_views[i as int]);
                    assert(psuf.drop_first() =~= piece_views.subrange(i + 1, np as int));
                }
                let t = trim_chars(&pieces[i]);
                match split_once_chars(&t, '=') {
                    Some(nv) => {
                        let k = trim_chars(&nv.0);
                        let v = trim_chars(&nv.1);
                        assoc_upsert_exec(&mut map, k, v);
                    },
                    None => {},
                }
                i += 1;
            }
            proof {
                assert(piece_views.subrange(np as int, np as int) =~= Seq::<Seq<char>>::empty());
            }
        }
        assert(browser_map_of(header@) == pair_views(map@));

        let n = self.entries.len();
        let mut i: usize = 0;
        proof {
            assert(purged.subrange(0, n as int) =~= purged);
        }
        while i < n
            invariant
                0 <= i <= n,
                n == self.entries@.len(),
                self.model() == purged,
                self.persist_path() == old(self).persist_path(),
                merge_jar_pairs(browser_map_of(header@), purged, req@) == merge_jar_pairs(
                    pair_views(map@),
                    purged.subrange(i as int, n as int),
                    req@,
                ),
            decreases n - i,
        {
            let ghost jsuf = purged.subrange(i as int, n as int);
            proof {
                assert(jsuf[0] == purged[i as int]);
                assert(jsuf.drop_first() =~= purged.subrange(i + 1, n as int));
            }
            let matched = starts_with_str(&req, self.entries[i].path.as_str());
            if matched {
                let k = str_to_chars(self.entries[i].name.as_str());
                let v = str_to_chars(self.entries[i].value.as_str());
                assoc_upsert_exec(&mut map, k, v);
            }
            i += 1;
        }
        proof {
            assert(purged.subrange(n as int, n as int) =~= Seq::<CookieModel>::empty());
        }
        assert(merged_cookie_pairs(header@, purged, req@) == pair_views(map@));

        let mut pieces: Vec<Vec<char>> = Vec::new();
        let nm = map.len();
        let mut i: usize = 0;
        proof {
            reveal_strlit("=");
            assert("="@ =~= seq!['=']);
        }
        while i < nm
            invariant
                0 <= i <= nm,
                nm == map@.len(),
                views_of(pieces@).len() == i,
                forall|j: int| 0 <= j < i ==> views_of(pieces@)[j] == pair_views(map@)[j].0 + "="@
                    + pair_views(map@)[j].1,
            decreases nm - i,
        {
            let mut piece: Vec<char> = Vec::new();
            append_chars(&mut piece, &map[i].0);
            piece.push('=');
            append_chars(&mut piece, &map[i].1);
            proof {
                assert(piece@ =~= pair_views(map@)[i as int].0 + "="@ + pair_views(
                    map@,
                )[i as int].1);
            }
            let ghost pv = pieces@;
            let ghost piece_v = piece@;
            pieces.push(piece);
            proof {
                assert forall|j: int| 0 <= j < i + 1 implies views_of(pieces@)[j] == pair_views(
                    map@,
                )[j].0 + "="@ + pair_views(map@)[j].1 by {
                    if j < i {
                        assert(pieces@[j] == pv[j]);
                        assert(views_of(pieces@)[j] == views_of(pv)[j]);
                    } else {
                        assert(pieces@[j]@ == piece_v);
                    }
                }
            }
            i += 1;
        }
        proof {
            assert(views_of(pieces@) =~= pair_views(map@).map_values(
                |p: (Seq<char>, Seq<char>)| p.0 + "="@ + p.1,
            ));
        }
        let joined = join_pieces(&pieces, "; ");
        chars_to_string(&joined)
    }

    /// Build a `Cookie` header from the jar alone, keeping insertion order.
    #[verifier::loop_isolation(false)]
    pub fn get_cookies_header(&mut self, request_path: &str, now: u64) -> (r: String)
        requires
            old(self).wf(),
        ensures
            final(self).wf(),
            final(self).model() == purge_of(old(self).model(), now),
            final(self).persist_path() == old(self).persist_path(),
            r@ == join_with(
                header_pairs(purge_of(old(self).model(), now), request_path@),
                "; "@,
            ),
    {
        self.purge_expired(now);
        let ghost purged = self.model();
        let req = str_to_chars(request_path);
        let mut pieces: Vec<Vec<char>> = Vec::new();
        let n = self.entries.len();
        let mut i: usize = 0;
        proof {
            reveal_strlit("=");
            assert("="@ =~= seq!['=']);
            assert(purged.subrange(0, n as int) =~= purged);
            assert(views_of(pieces@) =~= Seq::<Seq<char>>::empty());
        }
        while i < n
            invariant
                0 <= i <= n,
                n == self.entries@.len(),
                self.model() == purged,
                self.persist_path() == old(self).persist_path(),
                header_pairs(purged, req@) == views_of(pieces@) + header_pairs(
                    purged.subrange(i as int, n as int),
                    req@,
                ),
            decreases n - i,
        {
            let ghost jsuf = purged.subrange(i as int, n as int);
            proof {
                assert(jsuf[0] == purged[i as int]);
                assert(jsuf.drop_first() =~= purged.subrange(i + 1, n as int));
            }
            if starts_with_str(&req, self.entries[i].path.as_str()) {
                let mut piece: Vec<char> = Vec::new();
                let nn = str_to_chars(self.entries[i].name.as_str());
                append_chars(&mut piece, &nn);
                piece.push('=');
                let vv = str_to_chars(self.entries[i].value.as_str());
                append_chars(&mut piece, &vv);
                proof {
                    assert(piece@ =~= jsuf[0].name + "="@ + jsuf[0].value);
                }
                pieces.push(piece);
                proof {
                    assert(views_of(pieces@) =~= views_of(pieces@.drop_last()) + seq![jsuf[0].name
                        + "="@ + jsuf[0].value]);
                    assert(views_of(pieces@) + header_pairs(jsuf.drop_first(), req@)
                        =~= views_of(pieces@.drop_last()) + header_pairs(jsuf, req@));
                }
            }
            i += 1;
        }
        proof {
            assert(purged.subrange(n as int, n as int) =~= Seq::<CookieModel>::empty());
        }
        let joined = join_pieces(&pieces, "; ");
        chars_to_string(&joined)
    }

    /// Replace the jar with loaded entries: duplicate names after the first
    /// are dropped, then expired entries are purged.
    #[verifier::loop_isolation(false)]
    pub fn load_cookies(&mut self, entries: Vec<CookieEntry>, now: u64)
        ensures
            final(self).model() == purge_of(
                dedup_names(entries@.map_values(|e: CookieEntry| e@), Seq::empty()),
                now,
            ),
            final(self).persist_path() == old(self).persist_path(),
            final(self).wf(),
    {
        let ghost loaded = entries@.map_values(|e: CookieEntry| e@);
        let n = entries.len();
        let mut kept: Vec<CookieEntry> = Vec::new();
        let mut i: usize = 0;
        proof {
            assert(kept@.map_values(|e: CookieEntry| e@) =~= Seq::<CookieModel>::empty());
            assert(loaded.subrange(0, n as int) =~= loaded);
        }
        while i < n
            invariant
                0 <= i <= n,
                n == entries@.len(),
                names_unique(kept@.map_values(|e: CookieEntry| e@)),
                dedup_names(loaded, Seq::empty()) == dedup_names(
                    loaded.subrange(i as int, n as int),
                    kept@.map_values(|e: CookieEntry| e@),
                ),
            decreases n - i,
        {
            let ghost lsuf = loaded.subrange(i as int, n as int);
            let ghost acc = kept@.map_values(|e: CookieEntry| e@);
            proof {
                assert(lsuf[0] == loaded[i as int]);
                assert(lsuf.drop_first() =~= loaded.subrange(i + 1, n as int));
            }
            let e = &entries[i];
            let mut present = false;
            let kn = kept.len();
            let mut j: usize = 0;
            while j < kn
                invariant
                    0 <= j <= kn,
                    kn == kept@.len(),
                    acc == kept@.map_values(|x: CookieEntry| x@),
                    present ==> has_name(acc, loaded[i as int].name),
                    !present ==> forall|q: int| 0 <= q < j ==> acc[q].name != lsuf[0].name,
                decreases kn - j,
            {
                if str_eq(kept[j].name.as_str(), e.name.as_str()) {
                    present = true;
                    assert(acc[j as int].name == loaded[i as int].name);
                }
                j += 1;
            }
            if !present {
                assert(!has_name(acc, lsuf[0].name));
                kept.push(clone_entry(e));
                proof {
                    let nw = kept@.map_values(|x: CookieEntry| x@);
                    assert(nw =~= acc.push(lsuf[0]));
                    assert forall|a: int, b: int| 0 <= a < b < nw.len() implies #[trigger] nw[a].name
                        != #[trigger] nw[b].name by {
                        if b < nw.len() - 1 {
                            assert(acc[a].name != acc[b].name);
                        } else {
                            assert(!has_name(acc, lsuf[0].name));
                            if a < nw.len() - 1 && nw[a].name == nw[b].name {
                                assert(has_name(acc, lsuf[0].name));
                            }
                        }
                    }
                    assert(names_unique(nw));
                }
            } else {
                assert(has_name(acc, lsuf[0].name));
            }
            i += 1;
        }
        proof {
            assert(loaded.subrange(n as int, n as int) =~= Seq::<CookieModel>::empty());
        }
        self.entries = kept;
        self.purge_expired(now);
    }
}

/// Loaded entries with duplicate names after the first dropped, appended to
/// the already-deduplicated `acc`.
pub open spec fn dedup_names(s: Seq<CookieModel>, acc: Seq<CookieModel>) -> Seq<CookieModel>
    decreases s.len(),
{
    if s.len() == 0 {
        acc
    } else if has_name(acc, s[0].name) {
        dedup_names(s.drop_first(), acc)
    } else {
        dedup_names(s.drop_first(), acc.push(s[0]))
    }
}


proof fn lemma_scan_keeps_secure(attrs: Seq<Seq<char>>, st: SetCookieParse, now: u64)
    requires
        st.secure_flag,
        scan_attrs(attrs, st, now) is Some,
    ensures
        scan_attrs(attrs, st, now).unwrap().secure_flag,
    decreases attrs.len(),
{
    if attrs.len() > 0 {
        let st2 = apply_attr(st, attrs[0], now).unwrap();
        assert(st2.secure_flag);
        lemma_scan_keeps_secure(attrs.drop_first(), st2, now);
    }
}

proof fn lemma_scan_sets_secure(attrs: Seq<Seq<char>>, st: SetCookieParse, now: u64, k: int)
    requires
        0 <= k < attrs.len(),
        lower(trim(attrs[k])) == "secure"@,
        scan_attrs(attrs, st, now) is Some,
    ensures
        scan_attrs(attrs, st, now).unwrap().secure_flag,
    decreases attrs.len(),
{
    let st2 = apply_attr(st, attrs[0], now).unwrap();
    if k == 0 {
        let l = lower(trim(attrs[0]));
        proof_secure_literal_facts(l);
        assert(st2.secure_flag);
        lemma_scan_keeps_secure(attrs.drop_first(), st2, now);
    } else {
        lemma_scan_sets_secure(attrs.drop_first(), st2, now, k - 1);
    }
}

proof fn proof_secure_literal_facts(l: Seq<char>)
    requires
        l == "secure"@,
    ensures
        !has_prefix(l, "path="@),
        !has_prefix(l, "max-age="@),
        l != "httponly"@,
        l != "samesite=none"@,
{
    reveal_strlit("secure");
    reveal_strlit("path=");
    reveal_strlit("max-age=");
    reveal_strlit("httponly");
    reveal_strlit("samesite=none");
    if has_prefix(l, "path="@) {
        assert(l.subrange(0, 5)[0] == l[0]);
    }
}

/// Cookie classification: a stored cookie whose name begins with
/// `__Secure-` or `__Host-`, or whose attributes contain `Secure`, is
/// reported secure-only, and nothing is echoed to the browser.
pub proof fn lemma_cookie_classification(raw: Seq<char>, now: u64, p: SetCookieParse)
    requires
        set_cookie_outcome(raw, now) == (SetCookieOutcome::Store { parse: p }),
        has_prefix(p.name, "__Secure-"@) || has_prefix(p.name, "__Host-"@) || exists|k: int|
            0 <= k < split_on(raw, ';').drop_first().len() && lower(
                trim(#[trigger] split_on(raw, ';').drop_first()[k]),
            ) == "secure"@,
    ensures
        store_result_model(raw, now) == (true, Option::<Seq<char>>::None),
{
    if !has_prefix(p.name, "__Secure-"@) && !has_prefix(p.name, "__Host-"@) {
        let attrs = split_on(raw, ';').drop_first();
        let k = choose|k: int|
            0 <= k < attrs.len() && lower(trim(#[trigger] attrs[k])) == "secure"@;
        let parts = split_on(raw, ';');
        let nv = split_once_at(trim(parts[0]), '=').unwrap();
        let st0 = init_parse(trim(nv.0), trim(nv.1));
        assert(scan_attrs(attrs, st0, now) == Some(p));
        lemma_scan_sets_secure(attrs, st0, now, k);
    }
    assert(is_secure_of(p));
}

/// What upserting one entry does to a jar with unique names: names stay
/// unique, the entry's name now maps to its value, any entry of that name is
/// the new entry, other names are untouched, and the length grows only when
/// the name was absent.
pub proof fn lemma_upsert_props(jar: Seq<CookieModel>, e: CookieModel)
    requires
        names_unique(jar),
    ensures
        names_unique(upsert(jar, e)),
        jar_lookup(upsert(jar, e), e.name) == Some(e.value),
        has_name(upsert(jar, e), e.name),
        upsert(jar, e).len() == if has_name(jar, e.name) {
            jar.len() as int
        } else {
            jar.len() + 1 as int
        },
        forall|n: Seq<char>|
            n != e.name ==> #[trigger] jar_lookup(upsert(jar, e), n) == jar_lookup(jar, n),
        forall|i: int|
            0 <= i < upsert(jar, e).len() && #[trigger] upsert(jar, e)[i].name == e.name ==> upsert(
                jar,
                e,
            )[i] == e,
        forall|i: int|
            0 <= i < upsert(jar, e).len() ==> #[trigger] upsert(jar, e)[i] == e || has_name(
                jar,
                upsert(jar, e)[i].name,
            ),
    decreases jar.len(),
{
    let u = upsert(jar, e);
    if jar.len() == 0 {
        assert(u == seq![e]);
        assert(u[0] == e);
        assert(has_name(u, e.name));
        assert forall|n: Seq<char>| n != e.name implies #[trigger] jar_lookup(u, n)
            == jar_lookup(jar, n) by {
            assert(u.drop_first() =~= Seq::<CookieModel>::empty());
            assert(jar_lookup(Seq::<CookieModel>::empty(), n) is None);
            assert(jar_lookup(u, n) == jar_lookup(u.drop_first(), n));
        }
    } else if jar[0].name == e.name {
        assert(u == seq![e] + jar.drop_first());
        assert(u[0] == e);
        assert(has_name(u, e.name));
        assert(has_name(jar, e.name));
        assert(names_unique(jar.drop_first()));
        assert forall|i: int|
            0 <= i < u.len() && #[trigger] u[i].name == e.name implies u[i] == e by {
            if i > 0 {
                assert(u[i] == jar[i]);
                assert(jar[0].name == jar[i].name);
            }
        }
        assert forall|i: int|
            0 <= i < u.len() implies #[trigger] u[i] == e || has_name(jar, u[i].name) by {
            if i > 0 {
                assert(u[i] == jar[i]);
            }
        }
        assert forall|n: Seq<char>| n != e.name implies #[trigger] jar_lookup(u, n)
            == jar_lookup(jar, n) by {
            assert(u.drop_first() =~= jar.drop_first());
        }
        assert forall|a: int, b: int| 0 <= a < b < u.len() implies #[trigger] u[a].name
            != #[trigger] u[b].name by {
            assert(jar[a].name != jar[b].name);
        }
    } else {
        lemma_upsert_props(jar.drop_first(), e);
        let ur = upsert(jar.drop_first(), e);
        assert(u == seq![jar[0]] + ur);
        assert(u.drop_first() =~= ur);
        if has_name(jar, e.name) {
            let w = choose|i: int| 0 <= i < jar.len() && jar[i].name == e.name;
            assert(w > 0);
            assert(jar.drop_first()[w - 1].name == e.name);
            assert(has_name(jar.drop_first(), e.name));
        }
        if has_name(jar.drop_first(), e.name) {
            let w = choose|i: int|
                0 <= i < jar.drop_first().len() && jar.drop_first()[i].name == e.name;
            assert(jar[w + 1].name == e.name);
            assert(has_name(jar, e.name));
        }
        assert(jar_lookup(u, e.name) == jar_lookup(ur, e.name));
        let w = choose|i: int| 0 <= i < ur.len() && ur[i].name == e.name;
        assert(u[w + 1].name == e.name);
        assert(has_name(u, e.name));
        assert forall|n: Seq<char>| n != e.name implies #[trigger] jar_lookup(u, n)
            == jar_lookup(jar, n) by {
            assert(jar_lookup(u, n) == if jar[0].name == n {
                Some(jar[0].value)
            } else {
                jar_lookup(ur, n)
            });
        }
        assert forall|i: int|
            0 <= i < u.len() && #[trigger] u[i].name == e.name implies u[i] == e by {
            if i > 0 {
                assert(ur[i - 1].name == e.name);
            }
        }
        assert forall|i: int|
            0 <= i < u.len() implies #[trigger] u[i] == e || has_name(jar, u[i].name) by {
            if i > 0 {
                assert(u[i] == ur[i - 1]);
                if ur[i - 1] != e {
                    assert(has_name(jar.drop_first(), ur[i - 1].name));
                    let v = choose|q: int|
                        0 <= q < jar.drop_first().len() && jar.drop_first()[q].name == ur[i
                            - 1].name;
                    assert(jar[v + 1].name == ur[i - 1].name);
                }
            } else {
                assert(u[0] == jar[0]);
            }
        }
        assert forall|a: int, b: int| 0 <= a < b < u.len() implies #[trigger] u[a].name
            != #[trigger] u[b].name by {
            if a == 0 {
                assert(u[b] == ur[b - 1]);
                if u[b] == e {
                    assert(u[b].name == e.name);
                    assert(u[0].name != e.name);
                } else {
                    assert(has_name(jar.drop_first(), ur[b - 1].name));
                    let v = choose|q: int|
                        0 <= q < jar.drop_first().len() && jar.drop_first()[q].name == ur[b
                            - 1].name;
                    assert(jar[v + 1].name == ur[b - 1].name);
                    assert(jar[0].name != jar[v + 1].name);
                }
            } else {
                assert(u[a] == ur[a - 1] && u[b] == ur[b - 1]);
            }
        }
    }
}

/// What removing a name does to a jar with unique names: the name is gone,
/// other names are untouched, and the length shrinks exactly when the name
/// was present.
pub proof fn lemma_remove_props(jar: Seq<CookieModel>, name: Seq<char>)
    requires
        names_unique(jar),
    ensures
        !has_name(remove_named(jar, name), name),
        remove_named(jar, name).len() == if has_name(jar, name) {
            jar.len() - 1
        } else {
            jar.len() as int
        },
        forall|n: Seq<char>|
            n != name ==> #[trigger] jar_lookup(remove_named(jar, name), n) == jar_lookup(jar, n),
    decreases jar.len(),
{
    let r = remove_named(jar, name);
    if jar.len() == 0 {
        assert(!has_name(r, name));
    } else {
        let rest = jar.drop_first();
        assert(names_unique(rest));
        lemma_remove_props(rest, name);
        let rr = remove_named(rest, name);
        if has_name(rest, name) {
            let w = choose|i: int| 0 <= i < rest.len() && rest[i].name == name;
            assert(jar[w + 1].name == name);
            assert(has_name(jar, name));
        }
        if jar[0].name == name {
            assert(r == rr);
            assert(has_name(jar, name));
            assert(!has_name(rest, name)) by {
                if has_name(rest, name) {
                    let w = choose|i: int| 0 <= i < rest.len() && rest[i].name == name;
                    assert(jar[0].name != jar[w + 1].name);
                }
            }
        } else {
            assert(r == seq![jar[0]] + rr);
            assert(r.drop_first() =~= rr);
            assert(!has_name(r, name)) by {
                if has_name(r, name) {
                    let w = choose|i: int| 0 <= i < r.len() && r[i].name == name;
                    assert(w > 0);
                    assert(rr[w - 1].name == name);
                    assert(has_name(rr, name));
                }
            }
            if has_name(jar, name) {
                let w = choose|i: int| 0 <= i < jar.len() && jar[i].name == name;
                assert(w > 0);
                assert(rest[w - 1].name == name);
                assert(has_name(rest, name));
            }
            assert forall|n: Seq<char>| n != name implies #[trigger] jar_lookup(r, n)
                == jar_lookup(jar, n) by {
                assert(jar_lookup(r, n) == if jar[0].name == n {
                    Some(jar[0].value)
                } else {
                    jar_lookup(rr, n)
                });
            }
        }
    }
}

/// Deletion law: storing a cookie named `x` and then applying a
/// `Set-Cookie` for `x` whose `Max-Age` is non-positive leaves the jar one
/// entry shorter than after the store, with no entry named `x`.
pub proof fn lemma_delete_after_store(
    jar: Seq<CookieModel>,
    raw1: Seq<char>,
    raw2: Seq<char>,
    now1: u64,
    now2: u64,
    p: SetCookieParse,
)
    requires
        names_unique(jar),
        set_cookie_outcome(raw1, now1) == (SetCookieOutcome::Store { parse: p }),
        set_cookie_outcome(raw2, now2) == (SetCookieOutcome::Delete { name: p.name }),
    ensures
        ({
            let jar1 = jar_after_store(jar, raw1, now1);
            let jar2 = jar_after_store(jar1, raw2, now2);
            &&& jar2.len() == jar1.len() - 1
            &&& !has_name(jar2, p.name)
        }),
{
    let jar1 = jar_after_store(jar, raw1, now1);
    assert(jar1 == upsert(jar, entry_of(p)));
    lemma_upsert_props(jar, entry_of(p));
    let jar2 = jar_after_store(jar1, raw2, now2);
    assert(jar2 == remove_named(jar1, p.name));
    lemma_remove_props(jar1, p.name);
}

/// Upsert law: repeated stores under one name leave exactly one entry of
/// that name, holding the most recent value.
pub proof fn lemma_upsert_by_name(
    jar: Seq<CookieModel>,
    raw1: Seq<char>,
    raw2: Seq<char>,
    now1: u64,
    now2: u64,
    p1: SetCookieParse,
    p2: SetCookieParse,
)
    requires
        names_unique(jar),
        set_cookie_outcome(raw1, now1) == (SetCookieOutcome::Store { parse: p1 }),
        set_cookie_outcome(raw2, now2) == (SetCookieOutcome::Store { parse: p2 }),
        p2.name == p1.name,
    ensures
        ({
            let jar2 = jar_after_store(jar_after_store(jar, raw1, now1), raw2, now2);
            &&& names_unique(jar2)
            &&& jar_lookup(jar2, p2.name) == Some(p2.value)
            &&& forall|i: int|
                0 <= i < jar2.len() && #[trigger] jar2[i].name == p2.name ==> jar2[i] == entry_of(
                    p2,
                )
        }),
{
    let jar1 = jar_after_store(jar, raw1, now1);
    assert(jar1 == upsert(jar, entry_of(p1)));
    lemma_upsert_props(jar, entry_of(p1));
    let jar2 = jar_after_store(jar1, raw2, now2);
    assert(jar2 == upsert(jar1, entry_of(p2)));
    lemma_upsert_props(jar1, entry_of(p2));
}

proof fn lemma_assoc_get_upsert(m: Seq<(Seq<char>, Seq<char>)>, k: Seq<char>, v: Seq<char>)
    ensures
        assoc_get(assoc_upsert(m, k, v), k) == Some(v),
        forall|n: Seq<char>|
            n != k ==> #[trigger] assoc_get(assoc_upsert(m, k, v), n) == assoc_get(m, n),
    decreases m.len(),
{
    let u = assoc_upsert(m, k, v);
    if m.len() == 0 {
        assert(u == seq![(k, v)]);
        assert forall|n: Seq<char>| n != k implies #[trigger] assoc_get(u, n) == assoc_get(
            m,
            n,
        ) by {
            assert(u.drop_first() =~= Seq::<(Seq<char>, Seq<char>)>::empty());
            assert(assoc_get(Seq::<(Seq<char>, Seq<char>)>::empty(), n) is None);
            assert(assoc_get(u, n) == assoc_get(u.drop_first(), n));
        }
    } else if m[0].0 == k {
        assert(u == seq![(k, v)] + m.drop_first());
        assert(u.drop_first() =~= m.drop_first());
        assert forall|n: Seq<char>| n != k implies #[trigger] assoc_get(u, n) == assoc_get(
            m,
            n,
        ) by {
            assert(assoc_get(u, n) == assoc_get(u.drop_first(), n));
            assert(assoc_get(m, n) == assoc_get(m.drop_first(), n));
        }
    } else {
        lemma_assoc_get_upsert(m.drop_first(), k, v);
        let ur = assoc_upsert(m.drop_first(), k, v);
        assert(u == seq![m[0]] + ur);
        assert(u.drop_first() =~= ur);
        assert forall|n: Seq<char>| n != k implies #[trigger] assoc_get(u, n) == assoc_get(
            m,
            n,
        ) by {
            if m[0].0 == n {
                assert(assoc_get(u, n) == Some(m[0].1));
            } else {
                assert(assoc_get(u, n) == assoc_get(ur, n));
                assert(assoc_get(ur, n) == assoc_get(m.drop_first(), n));
                assert(assoc_get(m, n) == assoc_get(m.drop_first(), n));
            }
        }
    }
}

proof fn lemma_merge_get(
    m: Seq<(Seq<char>, Seq<char>)>,
    jar: Seq<CookieModel>,
    req: Seq<char>,
    name: Seq<char>,
)
    requires
        names_unique(jar),
    ensures
        ({
            if exists|i: int|
                0 <= i < jar.len() && (#[trigger] jar[i].name) == name && has_prefix(
                    req,
                    jar[i].path,
                ) {
                let w = choose|i: int|
                    0 <= i < jar.len() && (#[trigger] jar[i].name) == name && has_prefix(
                        req,
                        jar[i].path,
                    );
                assoc_get(merge_jar_pairs(m, jar, req), name) == Some(jar[w].value)
            } else {
                assoc_get(merge_jar_pairs(m, jar, req), name) == assoc_get(m, name)
            }
        }),
    decreases jar.len(),
{
    if jar.len() == 0 {
    } else {
        let rest = jar.drop_first();
        assert(names_unique(rest));
        let head_matches = has_prefix(req, jar[0].path);
        let m2 = if head_matches {
            assoc_upsert(m, jar[0].name, jar[0].value)
        } else {
            m
        };
        assert(merge_jar_pairs(m, jar, req) == merge_jar_pairs(m2, rest, req));
        lemma_merge_get(m2, rest, req, name);
        if head_matches {
            lemma_assoc_get_upsert(m, jar[0].name, jar[0].value);
        }
        if exists|i: int|
            0 <= i < rest.len() && (#[trigger] rest[i].name) == name && has_prefix(
                req,
                rest[i].path,
            ) {
            let wr = choose|i: int|
                0 <= i < rest.len() && (#[trigger] rest[i].name) == name && has_prefix(
                    req,
                    rest[i].path,
                );
            assert(jar[wr + 1].name == name && has_prefix(req, jar[wr + 1].path));
            let w = choose|i: int|
                0 <= i < jar.len() && (#[trigger] jar[i].name) == name && has_prefix(
                    req,
                    jar[i].path,
                );
            assert(w >= 1) by {
                if w == 0 {
                    assert(jar[0].name == jar[wr + 1].name);
                }
            }
            assert(rest[w - 1].name == name && has_prefix(req, rest[w - 1].path));
            assert(jar[w].value == rest[wr].value) by {
                if w - 1 != wr {
                    assert(rest[w - 1].name == rest[wr].name);
                }
            }
        } else {
            if jar[0].name == name && head_matches {
                let w = choose|i: int|
                    0 <= i < jar.len() && (#[trigger] jar[i].name) == name && has_prefix(
                        req,
                        jar[i].path,
                    );
                assert(w == 0) by {
                    if w > 0 {
                        assert(rest[w - 1].name == name && has_prefix(req, rest[w - 1].path));
                    }
                }
                assert(assoc_get(merge_jar_pairs(m, jar, req), name) == Some(jar[0].value));
            } else {
                if jar[0].name != name {
                    if exists|i: int|
                        0 <= i < jar.len() && (#[trigger] jar[i].name) == name && has_prefix(
                            req,
                            jar[i].path,
                        ) {
                        let w = choose|i: int|
                            0 <= i < jar.len() && (#[trigger] jar[i].name) == name
                                && has_prefix(req, jar[i].path);
                        assert(w > 0);
                        assert(rest[w - 1].name == name && has_prefix(req, rest[w - 1].path));
                    }
                } else {
                    // head has the name but its path does not match
                    if exists|i: int|
                        0 <= i < jar.len() && (#[trigger] jar[i].name) == name && has_prefix(
                            req,
                            jar[i].path,
                        ) {
                        let w = choose|i: int|
                            0 <= i < jar.len() && (#[trigger] jar[i].name) == name
                                && has_prefix(req, jar[i].path);
                        assert(w > 0) by {
                            if w == 0 {
                                assert(!has_prefix(req, jar[0].path));
                            }
                        }
                        assert(jar[0].name == jar[w].name);
                    }
                }
            }
        }
    }
}

/// Merge precedence: for every name carried by a path-matching jar entry,
/// the merged map holds the jar's value, whatever the browser header said.
pub proof fn lemma_merge_precedence(
    header: Seq<char>,
    jar: Seq<CookieModel>,
    req: Seq<char>,
    at: int,
)
    requires
        names_unique(jar),
        0 <= at < jar.len(),
        has_prefix(req, jar[at].path),
    ensures
        assoc_get(merged_cookie_pairs(header, jar, req), jar[at].name) == Some(jar[at].value),
{
    lemma_merge_get(browser_map_of(header), jar, req, jar[at].name);
    let w = choose|i: int|
        0 <= i < jar.len() && (#[trigger] jar[i].name) == jar[at].name && has_prefix(
            req,
            jar[i].path,
        );
    assert(jar[w].name == jar[at].name);
    assert(w == at) by {
        if w != at {
            assert(jar[w].name != jar[at].name);
        }
    }
}

/// Path filter: a jar entry whose path is not a literal prefix of the
/// request path contributes nothing to the merge; unless the browser header
/// supplied that name, the name is absent from the merged map.
pub proof fn lemma_merge_path_filter(
    header: Seq<char>,
    jar: Seq<CookieModel>,
    req: Seq<char>,
    at: int,
)
    requires
        names_unique(jar),
        0 <= at < jar.len(),
        !has_prefix(req, jar[at].path),
        assoc_get(browser_map_of(header), jar[at].name) is None,
    ensures
        assoc_get(merged_cookie_pairs(header, jar, req), jar[at].name) is None,
{
    lemma_merge_get(browser_map_of(header), jar, req, jar[at].name);
    if exists|i: int|
        0 <= i < jar.len() && (#[trigger] jar[i].name) == jar[at].name && has_prefix(
            req,
            jar[i].path,
        ) {
        let w = choose|i: int|
            0 <= i < jar.len() && (#[trigger] jar[i].name) == jar[at].name && has_prefix(
                req,
                jar[i].path,
            );
        assert(w == at) by {
            if w != at {
                assert(jar[w].name != jar[at].name);
            }
        }
        assert(false);
    }
}


/// Expiry invariant: purging at `now` leaves only entries that still live,
/// so no read built on the purged jar can return an expired cookie.
pub proof fn lemma_purge_drops_expired(jar: Seq<CookieModel>, now: u64)
    ensures
        forall|i: int|
            0 <= i < purge_of(jar, now).len() ==> live_at(#[trigger] purge_of(jar, now)[i], now),
    decreases jar.len(),
{
    if jar.len() > 0 {
        lemma_purge_drops_expired(jar.drop_first(), now);
        let pr = purge_of(jar.drop_first(), now);
        if live_at(jar[0], now) {
            assert forall|i: int| 0 <= i < purge_of(jar, now).len() implies live_at(
                #[trigger] purge_of(jar, now)[i],
                now,
            ) by {
                if i > 0 {
                    assert(purge_of(jar, now)[i] == pr[i - 1]);
                }
            }
        }
    }
}

} // verus!
