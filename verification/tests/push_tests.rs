use ukuma::{
    all_passed, build_push_endpoint, normalize_status, ping_ms, push_accepted, push_request,
    summarize_failures, truncate, AgentConfig, AppConfig, CheckRun, LogConfig, PushConfig,
    MAX_MSG_LEN,
};

fn run(id: &str, ok: bool, latency_ms: u64, detail: &str) -> CheckRun {
    CheckRun { id: id.to_string(), ok, latency_ms, detail: detail.to_string() }
}

fn push_config(url: &str, token: &str, status: &str, msg: &str) -> PushConfig {
    PushConfig {
        url: url.to_string(),
        token: token.to_string(),
        default_status: status.to_string(),
        default_msg: msg.to_string(),
    }
}

fn app_config(push: PushConfig) -> AppConfig {
    AppConfig {
        agent: AgentConfig { interval: 60 },
        log: LogConfig { level: "info".to_string() },
        push,
        checks: vec![],
    }
}

fn pairs(q: &[(String, String)]) -> Vec<(&str, &str)> {
    q.iter().map(|(k, v)| (k.as_str(), v.as_str())).collect()
}

#[test]
fn normalize_status_keeps_known_words() {
    assert_eq!(normalize_status("up", false), "up");
    assert_eq!(normalize_status("down", true), "down");
    assert_eq!(normalize_status("  UP \n", false), "up");
    assert_eq!(normalize_status("\tDoWn ", true), "down");
}

#[test]
fn normalize_status_trims_unicode_whitespace() {
    assert_eq!(normalize_status("\u{3000}Down\u{a0}\u{2028}", true), "down");
    assert_eq!(normalize_status("\u{85}up\u{200a}", false), "up");
}

#[test]
fn normalize_status_falls_back_on_success() {
    assert_eq!(normalize_status("pending", true), "up");
    assert_eq!(normalize_status("pending", false), "down");
    assert_eq!(normalize_status("", true), "up");
    assert_eq!(normalize_status("u p", false), "down");
    assert_eq!(normalize_status("upp", false), "down");
    // Only ASCII letters are lower-cased.
    assert_eq!(normalize_status("\u{1d6c}p", false), "down");
}

#[test]
fn normalize_status_is_idempotent() {
    for s in ["  Up", "DOWN ", "weird", ""] {
        for first in [true, false] {
            let once = normalize_status(s, first);
            for second in [true, false] {
                assert_eq!(normalize_status(&once, second), once);
            }
        }
    }
}

#[test]
fn summarize_failures_joins_failed_runs() {
    let runs = vec![
        run("a", true, 5, "fine"),
        run("b", false, 0, "boom"),
        run("c", true, 7, "fine"),
        run("d", false, 3, "timed out"),
    ];
    assert_eq!(summarize_failures(&runs), "b: boom; d: timed out");
}

#[test]
fn summarize_failures_single_and_none() {
    assert_eq!(summarize_failures(&[run("x", false, 0, "")]), "x: ");
    assert_eq!(summarize_failures(&[run("x", true, 1, "ok")]), "");
    assert_eq!(summarize_failures(&[]), "");
}

#[test]
fn summary_is_empty_exactly_when_all_passed() {
    let cases = vec![
        vec![],
        vec![run("a", true, 1, "")],
        vec![run("a", true, 1, ""), run("b", false, 0, "")],
        vec![run("", false, 0, "")],
    ];
    for runs in cases {
        assert_eq!(summarize_failures(&runs).is_empty(), all_passed(&runs));
    }
}

#[test]
fn truncate_keeps_short_messages() {
    assert_eq!(truncate("hello".to_string(), 5), "hello");
    assert_eq!(truncate("hello".to_string(), 100), "hello");
    assert_eq!(truncate(String::new(), 0), "");
    // Three characters, six bytes: fits in six.
    assert_eq!(truncate("ééé".to_string(), 6), "ééé");
}

#[test]
fn truncate_cuts_long_messages() {
    assert_eq!(truncate("hello world".to_string(), 5), "hell…");
    assert_eq!(truncate("ab".to_string(), 1), "…");
    assert_eq!(truncate("ab".to_string(), 0), "…");
    // 'a' is one byte and 'é' two: the cut at byte 3 falls after "aé".
    assert_eq!(truncate("aéé".to_string(), 4), "aé…");
}

#[test]
fn truncate_bound_on_long_summary() {
    let detail = "x".repeat(3000);
    let s = summarize_failures(&[run("c", false, 0, &detail)]);
    let t = truncate(s.clone(), MAX_MSG_LEN);
    assert_eq!(t.len(), MAX_MSG_LEN + 2);
    assert!(t.ends_with('…'));
    assert!(s.starts_with(t.trim_end_matches('…')));
    assert_eq!(t.chars().count(), 1500);
}

#[test]
fn build_push_endpoint_joins_with_one_slash() {
    let p = push_config("https://push.example/api/push", "tok", "up", "OK");
    assert_eq!(build_push_endpoint(&p), "https://push.example/api/push/tok");
    let p = push_config("https://push.example/api/push///", "//tok/", "up", "OK");
    assert_eq!(build_push_endpoint(&p), "https://push.example/api/push/tok/");
    let p = push_config("", "", "up", "OK");
    assert_eq!(build_push_endpoint(&p), "/");
}

#[test]
fn endpoint_ignores_extra_slashes() {
    let a = build_push_endpoint(&push_config("http://h/p", "t", "", ""));
    let b = build_push_endpoint(&push_config("http://h/p/", "t", "", ""));
    let c = build_push_endpoint(&push_config("http://h/p", "/t", "", ""));
    assert_eq!(a, b);
    assert_eq!(a, c);
}

#[test]
fn ping_ms_is_max_latency_of_passed_runs() {
    let runs = vec![run("a", true, 10, ""), run("b", false, 99, ""), run("c", true, 30, "")];
    assert_eq!(ping_ms(&runs), 30);
    assert_eq!(ping_ms(&[run("b", false, 99, "")]), 0);
    assert_eq!(ping_ms(&[]), 0);
}

#[test]
fn all_passed_cases() {
    assert!(all_passed(&[]));
    assert!(all_passed(&[run("a", true, 0, "")]));
    assert!(!all_passed(&[run("a", true, 0, ""), run("b", false, 0, "")]));
}

#[test]
fn push_request_when_all_passed() {
    let cfg = app_config(push_config("https://push.example/api/push/", "tok", " Up ", "OK"));
    let runs = vec![run("a", true, 10, "echo"), run("b", true, 30, "echo")];
    let req = push_request(&cfg, &runs);
    assert_eq!(req.endpoint, "https://push.example/api/push/tok");
    assert_eq!(pairs(&req.query), vec![("status", "up"), ("msg", "OK"), ("ping", "30")]);
}

#[test]
fn push_request_configured_down_when_all_passed() {
    let cfg = app_config(push_config("u", "t", "DOWN", "maintenance"));
    let req = push_request(&cfg, &[run("a", true, 0, "")]);
    assert_eq!(pairs(&req.query), vec![("status", "down"), ("msg", "maintenance")]);
}

#[test]
fn push_request_with_failures() {
    let cfg = app_config(push_config("u", "t", "up", "OK"));
    let runs = vec![run("a", true, 12, "echo"), run("b", false, 50, "unreachable")];
    let req = push_request(&cfg, &runs);
    assert_eq!(
        pairs(&req.query),
        vec![("status", "down"), ("msg", "b: unreachable"), ("ping", "12")]
    );
}

#[test]
fn push_request_without_ping_when_nothing_passed() {
    let cfg = app_config(push_config("u", "t", "up", "OK"));
    let req = push_request(&cfg, &[run("b", false, 50, "x")]);
    assert_eq!(pairs(&req.query), vec![("status", "down"), ("msg", "b: x")]);
    let req = push_request(&cfg, &[run("a", true, 0, "")]);
    assert_eq!(pairs(&req.query), vec![("status", "up"), ("msg", "OK")]);
}

#[test]
fn push_request_truncates_long_summary() {
    let cfg = app_config(push_config("u", "t", "up", "OK"));
    let detail = "y".repeat(2000);
    let req = push_request(&cfg, &[run("c", false, 0, &detail)]);
    let msg = &req.query[1].1;
    assert_eq!(msg.len(), 1502);
    assert!(msg.starts_with("c: yyy"));
    assert!(msg.ends_with("y…"));
}

#[test]
fn push_accepted_is_2xx() {
    assert!(push_accepted(200));
    assert!(push_accepted(204));
    assert!(push_accepted(299));
    assert!(!push_accepted(199));
    assert!(!push_accepted(300));
    assert!(!push_accepted(404));
    assert!(!push_accepted(500));
}

#[test]
fn truncate_twice_changes_nothing() {
    for (s, max) in [("hello world", 5usize), ("hello", 5), ("ab", 0), ("aéé", 4), ("abcdef", 3)] {
        let once = truncate(s.to_string(), max);
        assert_eq!(truncate(once.clone(), max), once);
    }
}

#[test]
fn passed_runs_do_not_change_summary() {
    let failed = vec![run("b", false, 0, "boom"), run("d", false, 0, "down")];
    let mixed = vec![
        run("a", true, 1, "fine"),
        run("b", false, 0, "boom"),
        run("c", true, 2, "fine"),
        run("d", false, 0, "down"),
    ];
    assert_eq!(summarize_failures(&mixed), summarize_failures(&failed));
}
