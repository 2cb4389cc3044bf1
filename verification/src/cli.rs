//! The options of a run, as plain values.

use vstd::prelude::*;

verus! {

/// The version of the program.
pub const VERSION: &'static str = "0.1.0";

/// The `User-Agent` sent with every request.
pub const USER_AGENT: &'static str = "cdbgen-rs/0.1.0";

/// Where the configuration is read from when no path is given.
pub const DEFAULT_CONFIG_PATH: &'static str = "/etc/cdbgen/config.toml";

/// The command-line options of a run.
#[derive(Debug, Clone)]
pub struct Cli {
    /// Path of the configuration file.
    pub config: String,
    /// Fetch, parse and report, without writing the cache or any output.
    pub dry_run: bool,
    /// Log at debug level.
    pub verbose: bool,
    /// Bypass the cache validators and the stale-cache fallback.
    pub force_refresh: bool,
}

} // verus!
