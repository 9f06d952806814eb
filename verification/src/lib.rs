//! Verified core of a loopback same-origin reverse proxy for a desktop-embedded
//! admin UI: a cookie jar that upgrades secure-only cookies into server-visible
//! credentials, proxy runtime state, a request router, upstream request/response
//! planning, a static file server with HTML head injection, a preference bridge
//! page, and a small desktop window API surface.
//!
//! All request-handling decisions are made by verified functions over plain
//! values; the network listener, file reads and host-window calls live in the
//! surrounding application.

pub mod appconf;
pub mod bridge;
pub mod cookie;
pub mod desktop;
pub mod filename;
pub mod pipeline;
pub mod routing;
pub mod state;
pub mod statics;
pub mod strutil;
