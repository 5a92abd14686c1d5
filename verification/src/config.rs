use vstd::prelude::*;
use crate::utils::text::{eq_ignore_ascii_case, str_eq_ignore_ascii_case};

verus! {

/// How requests that do not name an existing file are routed.
#[derive(Debug, Clone, Copy, PartialEq, Eq, Structural)]
pub enum RouterPreset {
    /// Plain static file serving: missing files are answered with 404.
    Static,
    /// Single page application: missing paths fall back to the root `index.html`.
    Spa,
}

/// The router preset named by a configuration value, matched without regard to case.
pub open spec fn router_preset_named(name: Seq<char>) -> Option<RouterPreset> {
    if eq_ignore_ascii_case(name, "static"@) {
        Some(RouterPreset::Static)
    } else if eq_ignore_ascii_case(name, "spa"@) {
        Some(RouterPreset::Spa)
    } else {
        None
    }
}

impl RouterPreset {
    /// Reads a router preset from its configuration name ("static" or "spa", in any case).
    /// Returns `None` for an unknown name; the configuration loader then falls back to
    /// `Static` and warns.
    pub fn from_name(name: &str) -> (r: Option<RouterPreset>)
        ensures
            r == router_preset_named(name@),
    {
        if str_eq_ignore_ascii_case(name, "static") {
            Some(RouterPreset::Static)
        } else if str_eq_ignore_ascii_case(name, "spa") {
            Some(RouterPreset::Spa)
        } else {
            None
        }
    }
}

impl Default for RouterPreset {
    /// Static file serving is the default router.
    fn default() -> (r: RouterPreset)
        ensures
            r == RouterPreset::Static,
    {
        RouterPreset::Static
    }
}

/// Network settings used when binding the server.
#[derive(Debug)]
pub struct ServerConfig {
    pub http_port: u16,
    pub https_port: u16,
    pub addr: String,
    /// Seconds a client may take to send its request head.
    pub timeout: u64,
    pub router: RouterPreset,
    /// Whether directories without an `index.html` are listed.
    pub index: bool,
}

/// File-system locations of the served files and of the logs.
#[derive(Debug)]
pub struct PathsConfig {
    pub serve_dir: String,
    pub log_dir: String,
}

/// TLS settings.
#[derive(Debug)]
pub struct TlsConfig {
    pub enabled: bool,
    pub cert_path: String,
    pub key_path: String,
}

/// The whole server configuration.
#[derive(Debug)]
pub struct Config {
    pub server: ServerConfig,
    pub paths: PathsConfig,
    /// Extra headers added to every response, as (name, value) pairs.
    pub headers: Vec<(String, String)>,
    pub tls: TlsConfig,
}

/// Default for the request-head timeout, in seconds.
pub fn default_timeout() -> (r: u64)
    ensures
        r == 10,
{
    10
}

/// Default plain HTTP port.
pub fn default_http_port() -> (r: u16)
    ensures
        r == 80,
{
    80
}

/// Default HTTPS port.
pub fn default_https_port() -> (r: u16)
    ensures
        r == 443,
{
    443
}

/// Default TLS settings: disabled, with empty certificate and key paths.
pub fn default_tls_config() -> (r: TlsConfig)
    ensures
        !r.enabled,
        r.cert_path@ == Seq::<char>::empty(),
        r.key_path@ == Seq::<char>::empty(),
{
    TlsConfig { enabled: false, cert_path: String::new(), key_path: String::new() }
}

} // verus!
