//! The application's configuration shapes: where the server listens, where
//! the drive root lies, and which environment the settings were loaded for.
//! Reading configuration files is the caller's work; these are the values it
//! produces.

use vstd::prelude::*;

verus! {

/// The environment a configuration is loaded for.
pub enum Environment {
    /// Local development.
    Local,
    /// Production.
    Production,
}

impl Environment {
    /// The environment's configuration-file name.
    pub fn as_str(&self) -> (r: &'static str)
        ensures
            self is Local ==> r@ == "local"@,
            self is Production ==> r@ == "production"@,
    {
        match self {
            Environment::Local => "local",
            Environment::Production => "production",
        }
    }
}

/// The application's settings.
pub struct Settings {
    /// The web application's settings.
    pub application: ApplicationSettings,
}

/// Where the server listens and how it presents itself.
pub struct ApplicationSettings {
    /// The port to listen on.
    pub port: u16,
    /// The host to bind.
    pub host: String,
    /// The base URL the application is reached under.
    pub base_url: String,
    /// The application's display name.
    pub app_name: String,
    /// The logging level.
    pub log_level: String,
}

/// What the request handlers share: the application's identity.
pub struct AppState {
    /// The base URL the application is reached under.
    pub base_url: String,
    /// The application's display name.
    pub app_name: String,
}

impl AppState {
    /// Bundles the shared state.
    pub fn new(base_url: String, app_name: String) -> (r: AppState)
        ensures
            r.base_url@ == base_url@,
            r.app_name@ == app_name@,
    {
        AppState { base_url, app_name }
    }
}

/// What the webapp's handlers share: the application's identity and the
/// drive root's path text.
pub struct Application {
    /// The base URL the application is reached under.
    pub base_url: String,
    /// The drive root's path text.
    pub drive: Vec<u8>,
}

impl Application {
    /// Bundles the shared state.
    pub fn new(base_url: String, drive: Vec<u8>) -> (r: Application)
        ensures
            r.base_url@ == base_url@,
            r.drive@ == drive@,
    {
        Application { base_url, drive }
    }
}

/// The server's bind address, request timeout and drive root.
pub struct AxumServer {
    /// The address to bind.
    pub address: String,
    /// The request timeout, in milliseconds.
    pub timeout_ms: u64,
    /// The drive root's path text.
    pub directory: String,
}

impl AxumServer {
    /// Bundles the server's settings; the timeout is in milliseconds.
    pub fn new(address: String, timeout_ms: u64, directory: String) -> (r: AxumServer)
        ensures
            r.address@ == address@,
            r.timeout_ms == timeout_ms,
            r.directory@ == directory@,
    {
        AxumServer { address, timeout_ms, directory }
    }
}

} // verus!
