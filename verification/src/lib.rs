//! Decision logic of a small uptime agent: it runs configured probes and
//! reports one aggregated heartbeat to a push endpoint.

pub mod checks;
pub mod config;
pub mod panic_reply;
pub mod push;
pub mod text;

pub use checks::{
    cycle_period_secs, effective_timeout_ms, ping_run, resolve_error_message, saturating_millis,
    CheckRun, PingOutcome, ResolveFailure,
};
pub use config::{
    default_method, default_true, log_level, shows_config, AgentConfig, AppConfig, Check,
    CheckEntry, LogConfig, LogLevel, PushConfig,
};
pub use text::decimal;
pub use push::{
    all_passed, build_push_endpoint, normalize_status, ping_ms, push_accepted, push_request,
    summarize_failures, truncate, PushRequest, MAX_MSG_LEN,
};
pub use panic_reply::{panic_body, panic_details, panic_response, PanicResponse};
