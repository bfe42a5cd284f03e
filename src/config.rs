use std::collections::HashMap;
use std::time::Duration;

use vstd::prelude::*;

verus! {

/// Where the documents are stored, and how the pool of connections is sized.
#[derive(Debug, Default)]
pub struct PgConfig {
    pub url: String,
    pub max_size: Option<u32>,
    pub min_idle: Option<u32>,
    pub max_lifetime: Option<Duration>,
    pub idle_timeout: Option<Duration>,
    pub connection_timeout: Option<Duration>,
}

/// How much to log.
#[derive(Debug, Clone, Copy, PartialEq, Eq, Structural)]
pub enum LogLevel {
    Off,
    Error,
    Warn,
    Info,
    Debug,
    Trace,
}

/// The logging settings: a level for everything, levels by module, and whether
/// time stamps show nanoseconds.
#[derive(Debug)]
pub struct EnvLogger {
    pub level: Option<LogLevel>,
    pub modules: HashMap<String, LogLevel>,
    pub timestamp_nanos: bool,
}

} // verus!
