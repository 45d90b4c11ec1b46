//! The agent's configuration, as plain values, and the defaults and
//! choices that are made from it.

use vstd::prelude::*;

use crate::text::same_text;
use crate::text::owned;

verus! {

/// The whole configuration file.
#[derive(Debug, Clone)]
pub struct AppConfig {
    pub agent: AgentConfig,
    pub log: LogConfig,
    pub push: PushConfig,
    pub checks: Vec<Check>,
}

#[derive(Debug, Clone)]
pub struct AgentConfig {
    /// Seconds between check runs / heartbeats.
    pub interval: u64,
}

#[derive(Debug, Clone)]
pub struct LogConfig {
    pub level: String,
}

/// Where and how the heartbeat is pushed.
#[derive(Debug, Clone)]
pub struct PushConfig {
    pub url: String,
    pub token: String,
    pub default_status: String,
    pub default_msg: String,
}

/// One configured probe.
#[derive(Debug, Clone)]
pub enum Check {
    Http {
        id: String,
        url: String,
        method: String,
        expected_status: Vec<u16>,
        timeout: u64,
        follow_redirects: bool,
    },
    Https {
        id: String,
        url: String,
        method: String,
        expected_status: Vec<u16>,
        timeout: u64,
        insecure_skip_verify: bool,
    },
    Tcp { id: String, host: String, port: u16, timeout: u64 },
    Ping { id: String, host: String, timeout: u64 },
}

/// What the prober needs to know of an ICMP check.
#[derive(Debug, Clone)]
pub struct CheckEntry {
    pub id: String,
    pub host: String,
    /// Milliseconds to wait for the echo reply.
    pub timeout: u64,
}

impl Check {
    /// The ICMP probe this check describes; only `ping` checks have one.
    pub fn ping_entry(&self) -> (r: Option<CheckEntry>)
        ensures
            match self {
                Check::Ping { id, host, timeout } => r matches Some(e) && e.id@ == id@ && e.host@
                    == host@ && e.timeout == timeout,
                _ => r is None,
            },
    {
        match self {
            Check::Ping { id, host, timeout } => Some(
                CheckEntry { id: owned(id.as_str()), host: owned(host.as_str()), timeout: *timeout },
            ),
            _ => None,
        }
    }
}

/// The HTTP method of a check that names none.
pub fn default_method() -> (r: String)
    ensures
        r@ == "GET"@,
{
    owned("GET")
}

/// Redirects are followed unless a check says otherwise.
pub fn default_true() -> (r: bool)
    ensures
        r,
{
    true
}

/// Verbosity of the agent's log.
#[derive(Debug, Clone, Copy, PartialEq, Eq, Structural)]
pub enum LogLevel {
    Debug,
    Info,
    Warn,
    Error,
}

/// The level a configured name selects; names other than the four known
/// ones select `Info`.
pub open spec fn log_level_of(name: Seq<char>) -> LogLevel {
    if name == "debug"@ {
        LogLevel::Debug
    } else if name == "info"@ {
        LogLevel::Info
    } else if name == "warn"@ {
        LogLevel::Warn
    } else if name == "error"@ {
        LogLevel::Error
    } else {
        LogLevel::Info
    }
}

pub fn log_level(name: &str) -> (r: LogLevel)
    ensures
        r == log_level_of(name@),
{
    if same_text(name, "debug") {
        LogLevel::Debug
    } else if same_text(name, "info") {
        LogLevel::Info
    } else if same_text(name, "warn") {
        LogLevel::Warn
    } else if same_text(name, "error") {
        LogLevel::Error
    } else {
        LogLevel::Info
    }
}

/// Whether the configuration is to be printed at start-up (it is at the
/// `debug` level only).
pub fn shows_config(config: &AppConfig) -> (r: bool)
    ensures
        r == (config.log.level@ == "debug"@),
{
    same_text(config.log.level.as_str(), "debug")
}

} // verus!
