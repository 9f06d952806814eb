//! The desktop window API surface: routing under `/__yao_desktop/`, the
//! JSON bodies it answers with, and the parse of a fullscreen request.

use vstd::prelude::*;
use crate::strutil::{str_to_chars, chars_eq_str};

verus! {

/// Which desktop endpoint a path names.
#[derive(Clone, Copy, PartialEq, Eq, Structural, Debug)]
pub enum DesktopRoute {
    /// `/__yao_desktop/window/fullscreen`: query or set fullscreen.
    WindowFullscreen,
    /// Anything else under the desktop prefix: 404.
    Unknown,
}

/// The desktop dispatch: only the fullscreen endpoint exists.
pub open spec fn desktop_route_of(path: Seq<char>) -> DesktopRoute {
    if path == "/__yao_desktop/window/fullscreen"@ {
        DesktopRoute::WindowFullscreen
    } else {
        DesktopRoute::Unknown
    }
}

/// Dispatch a path under the desktop prefix.
pub fn desktop_route_for(path: &str) -> (r: DesktopRoute)
    ensures
        r == desktop_route_of(path@),
{
    let chars = str_to_chars(path);
    if chars_eq_str(&chars, "/__yao_desktop/window/fullscreen") {
        DesktopRoute::WindowFullscreen
    } else {
        DesktopRoute::Unknown
    }
}

/// The `fullscreen` boolean carried by a JSON request body; `false` when
/// the body is not JSON or the field is absent or not a boolean.
pub uninterp spec fn json_fullscreen_field(body: Seq<u8>) -> bool;

/// Relies on `serde_json::from_slice` and `serde_json::Value::as_bool`:
/// whether the body parses as JSON whose `fullscreen` field is `true`. The
/// result depends on the bytes alone.
#[verifier::external_body]
pub fn parse_fullscreen_body(body: &[u8]) -> (r: bool)
    ensures
        r == json_fullscreen_field(body@),
{
    serde_json::from_slice::<serde_json::Value>(body)
        .ok()
        .and_then(|v| v.get("fullscreen").and_then(|f| f.as_bool()))
        .unwrap_or(false)
}

/// The JSON body reporting a window's fullscreen state.
pub fn fullscreen_json(state: bool) -> (r: String)
    ensures
        r@ == if state {
            "{\"fullscreen\":true}"@
        } else {
            "{\"fullscreen\":false}"@
        },
{
    if state {
        "{\"fullscreen\":true}".to_owned()
    } else {
        "{\"fullscreen\":false}".to_owned()
    }
}

/// The 503 body served while no host app handle is registered.
pub fn desktop_not_ready() -> (r: (u16, &'static str))
    ensures
        r.0 == 503,
        r.1@ == "{\"error\":\"app not ready\"}"@,
{
    (503, "{\"error\":\"app not ready\"}")
}

/// The 404 body served when neither a focused nor a main window exists.
pub fn desktop_window_missing() -> (r: (u16, &'static str))
    ensures
        r.0 == 404,
        r.1@ == "{\"error\":\"window not found\"}"@,
{
    (404, "{\"error\":\"window not found\"}")
}

/// The 404 body for an unknown desktop endpoint.
pub fn desktop_not_found() -> (r: (u16, &'static str))
    ensures
        r.0 == 404,
        r.1@ == "{\"error\":\"not found\"}"@,
{
    (404, "{\"error\":\"not found\"}")
}

} // verus!
