//! Settings of the service, as plain values.

use vstd::prelude::*;

verus! {

/// Where the crash reports of the tools endpoint are written.
#[derive(Debug)]
pub struct SomeToolsAppConfig {
    pub crash_report_dir: String,
}

/// Where the diary keeps its database.
#[derive(Debug)]
pub struct DiaryConfig {
    pub database_file: String,
}

/// Settings of the single endpoints. Each is optional: an endpoint whose
/// setting is absent is not configured.
#[derive(Debug)]
pub struct AppConfig {
    pub ccit_info_file: Option<String>,
    pub server_network_log_file: Option<String>,
    pub some_tools: Option<SomeToolsAppConfig>,
    pub diary: Option<DiaryConfig>,
}

/// The address and port that the service listens on.
#[derive(Debug)]
pub struct ServerConfig {
    pub addr: Option<String>,
    pub port: u16,
}

/// All settings of the service.
#[derive(Debug)]
pub struct Config {
    pub app: AppConfig,
    pub server: ServerConfig,
}

impl AppConfig {
    /// No endpoint is configured.
    pub open spec fn is_unset(self) -> bool {
        &&& self.ccit_info_file is None
        &&& self.server_network_log_file is None
        &&& self.some_tools is None
        &&& self.diary is None
    }
}

impl ServerConfig {
    /// No address, and port 0.
    pub open spec fn is_unset(self) -> bool {
        &&& self.addr is None
        &&& self.port == 0
    }
}

impl Default for AppConfig {
    fn default() -> (r: Self)
        ensures
            r.is_unset(),
    {
        AppConfig { ccit_info_file: None, server_network_log_file: None, some_tools: None, diary: None }
    }
}

impl Default for ServerConfig {
    fn default() -> (r: Self)
        ensures
            r.is_unset(),
    {
        ServerConfig { addr: None, port: 0 }
    }
}

impl Default for Config {
    fn default() -> (r: Self)
        ensures
            r.app.is_unset(),
            r.server.is_unset(),
    {
        Config { app: AppConfig::default(), server: ServerConfig::default() }
    }
}

} // verus!
