//! The developer-facing application configuration: display name, proxy
//! port, theme and updater settings, and preset servers, with the defaults
//! a missing or partial `config.json` falls back to.

use vstd::prelude::*;

verus! {

/// Theme overrides.
pub struct ThemeConf {
    /// The primary accent color.
    pub primary_color: String,
}

/// Auto-updater settings.
pub struct UpdaterConf {
    /// Whether the updater runs.
    pub active: bool,
    /// The endpoints polled for releases.
    pub endpoints: Vec<String>,
    /// The release signing key.
    pub pubkey: String,
}

/// One pre-configured server.
pub struct ServerPreset {
    /// Server URL.
    pub url: String,
    /// Display label.
    pub label: String,
}

/// The application configuration.
pub struct AppConf {
    /// Application display name.
    pub name: String,
    /// Logo image path, relative to resources; empty means text-only.
    pub logo: String,
    /// The loopback proxy port.
    pub port: u16,
    /// Theme overrides.
    pub theme: ThemeConf,
    /// Auto-updater settings.
    pub updater: UpdaterConf,
    /// Default server list.
    pub servers: Vec<ServerPreset>,
}

fn default_name() -> (r: String)
    ensures
        r@ == "Yao Desktop"@,
{
    "Yao Desktop".to_owned()
}

fn default_port() -> (r: u16)
    ensures
        r == 15099,
{
    15099
}

fn default_primary_color() -> (r: String)
    ensures
        r@ == "#3b82f6"@,
{
    "#3b82f6".to_owned()
}

impl Default for ThemeConf {
    /// The default theme.
    fn default() -> (r: ThemeConf)
        ensures
            r.primary_color@ == "#3b82f6"@,
    {
        ThemeConf { primary_color: default_primary_color() }
    }
}

impl Default for UpdaterConf {
    /// The updater is off until configured.
    fn default() -> (r: UpdaterConf)
        ensures
            r.active == false,
            r.endpoints@.len() == 0,
            r.pubkey@ == Seq::<char>::empty(),
    {
        UpdaterConf { active: false, endpoints: Vec::new(), pubkey: String::new() }
    }
}

impl Default for AppConf {
    /// The configuration used when no `config.json` is present.
    fn default() -> (r: AppConf)
        ensures
            r.name@ == "Yao Desktop"@,
            r.logo@ == Seq::<char>::empty(),
            r.port == 15099,
            r.theme.primary_color@ == "#3b82f6"@,
            r.updater.active == false,
            r.updater.endpoints@.len() == 0,
            r.updater.pubkey@ == Seq::<char>::empty(),
            r.servers@.len() == 0,
    {
        AppConf {
            name: default_name(),
            logo: String::new(),
            port: default_port(),
            theme: ThemeConf::default(),
            updater: UpdaterConf::default(),
            servers: Vec::new(),
        }
    }
}

} // verus!
