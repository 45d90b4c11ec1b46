use ukuma::{
    cycle_period_secs, decimal, default_method, default_true, effective_timeout_ms, log_level,
    ping_run, resolve_error_message, saturating_millis, shows_config, AgentConfig, AppConfig,
    Check, LogConfig, LogLevel, PingOutcome, PushConfig, ResolveFailure,
};

#[test]
fn ping_run_reply() {
    let r = ping_run(
        "p1",
        "example.org",
        2000,
        PingOutcome::Reply { ip: "93.184.216.34".to_string(), rtt_ms: 17 },
    );
    assert_eq!(r.id, "p1");
    assert!(r.ok);
    assert_eq!(r.latency_ms, 17);
    assert_eq!(r.detail, "icmp echo from example.org (93.184.216.34)");
}

#[test]
fn ping_run_reply_clamps_latency() {
    let r = ping_run("p", "h", 1, PingOutcome::Reply { ip: "::1".to_string(), rtt_ms: u128::MAX });
    assert_eq!(r.latency_ms, u64::MAX);
}

#[test]
fn ping_run_timeout() {
    let r = ping_run("p2", "10.0.0.1", 2000, PingOutcome::TimedOut);
    assert!(!r.ok);
    assert_eq!(r.latency_ms, 2000);
    assert_eq!(r.detail, "icmp ping to 10.0.0.1 timed out after 2000 ms");
    let r = ping_run("p2", "h", 0, PingOutcome::TimedOut);
    assert_eq!(r.latency_ms, 1);
    assert_eq!(r.detail, "icmp ping to h timed out after 0 ms");
}

#[test]
fn ping_run_failure_and_unresolved() {
    let r = ping_run(
        "p3",
        "h",
        5,
        PingOutcome::Failed { error: "permission denied".to_string(), elapsed_ms: 3 },
    );
    assert!(!r.ok);
    assert_eq!(r.latency_ms, 3);
    assert_eq!(r.detail, "permission denied");
    let r = ping_run("p4", "h", 5, PingOutcome::Unresolved { detail: "no addresses found for h".to_string() });
    assert!(!r.ok);
    assert_eq!(r.latency_ms, 0);
    assert_eq!(r.detail, "no addresses found for h");
}

#[test]
fn resolve_error_messages() {
    assert_eq!(
        resolve_error_message("nowhere.invalid", &ResolveFailure::Lookup { error: "failed".to_string() }),
        "dns lookup for nowhere.invalid: failed"
    );
    assert_eq!(
        resolve_error_message("nowhere.invalid", &ResolveFailure::NoAddress),
        "no addresses found for nowhere.invalid"
    );
}

#[test]
fn timeouts_and_periods_are_at_least_one() {
    assert_eq!(effective_timeout_ms(0), 1);
    assert_eq!(effective_timeout_ms(1500), 1500);
    assert_eq!(cycle_period_secs(0), 1);
    assert_eq!(cycle_period_secs(60), 60);
}

#[test]
fn saturating_millis_cases() {
    assert_eq!(saturating_millis(0), 0);
    assert_eq!(saturating_millis(u64::MAX as u128), u64::MAX);
    assert_eq!(saturating_millis(u64::MAX as u128 + 1), u64::MAX);
}

#[test]
fn decimal_rendering() {
    assert_eq!(decimal(0), "0");
    assert_eq!(decimal(7), "7");
    assert_eq!(decimal(10), "10");
    assert_eq!(decimal(1234567890), "1234567890");
    assert_eq!(decimal(u64::MAX), "18446744073709551615");
    for n in [1u64, 9, 99, 100, 65535, 1 << 40] {
        assert_eq!(decimal(n), n.to_string());
    }
}

#[test]
fn defaults() {
    assert_eq!(default_method(), "GET");
    assert!(default_true());
}

#[test]
fn log_levels() {
    assert_eq!(log_level("debug"), LogLevel::Debug);
    assert_eq!(log_level("info"), LogLevel::Info);
    assert_eq!(log_level("warn"), LogLevel::Warn);
    assert_eq!(log_level("error"), LogLevel::Error);
    assert_eq!(log_level("DEBUG"), LogLevel::Info);
    assert_eq!(log_level(""), LogLevel::Info);
    assert_eq!(log_level("trace"), LogLevel::Info);
}

fn config_with_level(level: &str) -> AppConfig {
    AppConfig {
        agent: AgentConfig { interval: 60 },
        log: LogConfig { level: level.to_string() },
        push: PushConfig {
            url: "u".to_string(),
            token: "t".to_string(),
            default_status: "up".to_string(),
            default_msg: "OK".to_string(),
        },
        checks: vec![
            Check::Ping { id: "example-ping-a".to_string(), host: "127.0.0.1".to_string(), timeout: 2000 },
            Check::Tcp { id: "t".to_string(), host: "h".to_string(), port: 22, timeout: 5 },
        ],
    }
}

#[test]
fn config_is_shown_at_debug_only() {
    assert!(shows_config(&config_with_level("debug")));
    assert!(!shows_config(&config_with_level("info")));
    assert!(!shows_config(&config_with_level("Debug")));
}

#[test]
fn ping_entries_of_checks() {
    let cfg = config_with_level("info");
    let e = cfg.checks[0].ping_entry().expect("a ping check has an entry");
    assert_eq!(e.id, "example-ping-a");
    assert_eq!(e.host, "127.0.0.1");
    assert_eq!(e.timeout, 2000);
    assert!(cfg.checks[1].ping_entry().is_none());
}
