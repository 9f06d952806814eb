//! The request router: which handler a request path reaches, first match
//! winning.

use vstd::prelude::*;
use crate::strutil::{has_prefix, str_to_chars, starts_with_str, chars_eq_str};

verus! {

/// Where the router sends a request.
#[derive(Clone, Copy, PartialEq, Eq, Structural, Debug)]
pub enum Route {
    /// `/__yao_desktop/...`: the desktop window API.
    Desktop,
    /// `/__yao_bridge`: the preference bridge page.
    Bridge,
    /// `/__yao_admin_root/...`: the local static bundle.
    StaticAsset,
    /// `/__yao_admin_root` exactly: permanent redirect to the slash form.
    RedirectAdminRoot,
    /// `/` exactly: temporary redirect into the admin bundle.
    RedirectRoot,
    /// Everything else: the upstream pipeline.
    Upstream,
}

/// The dispatch table, in order; comparisons are exact except the prefixes.
pub open spec fn route_of(path: Seq<char>) -> Route {
    if has_prefix(path, "/__yao_desktop/"@) {
        Route::Desktop
    } else if path == "/__yao_bridge"@ {
        Route::Bridge
    } else if has_prefix(path, "/__yao_admin_root/"@) {
        Route::StaticAsset
    } else if path == "/__yao_admin_root"@ {
        Route::RedirectAdminRoot
    } else if path == "/"@ {
        Route::RedirectRoot
    } else {
        Route::Upstream
    }
}

/// Dispatch a request path.
pub fn route_for(path: &str) -> (r: Route)
    ensures
        r == route_of(path@),
{
    let chars = str_to_chars(path);
    if starts_with_str(&chars, "/__yao_desktop/") {
        Route::Desktop
    } else if chars_eq_str(&chars, "/__yao_bridge") {
        Route::Bridge
    } else if starts_with_str(&chars, "/__yao_admin_root/") {
        Route::StaticAsset
    } else if chars_eq_str(&chars, "/__yao_admin_root") {
        Route::RedirectAdminRoot
    } else if chars_eq_str(&chars, "/") {
        Route::RedirectRoot
    } else {
        Route::Upstream
    }
}

} // verus!
