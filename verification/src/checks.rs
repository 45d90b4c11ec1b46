//! Outcomes of the ICMP probes, turned into check results.

use vstd::prelude::*;

use crate::text::decimal;
use crate::text::decimal_spec;
use crate::text::owned;

verus! {

/// The result of running one check.
#[derive(Debug, Clone)]
pub struct CheckRun {
    pub id: String,
    pub ok: bool,
    pub latency_ms: u64,
    pub detail: String,
}

/// Why a host name gave no address to ping.
#[derive(Debug, Clone)]
pub enum ResolveFailure {
    /// The lookup itself failed, with this error text.
    Lookup { error: String },
    /// The lookup succeeded but returned no address.
    NoAddress,
}

pub open spec fn resolve_error_text(host: Seq<char>, failure: ResolveFailure) -> Seq<char> {
    match failure {
        ResolveFailure::Lookup { error } => "dns lookup for "@ + host + ": "@ + error@,
        ResolveFailure::NoAddress => "no addresses found for "@ + host,
    }
}

/// The message a failed resolution of `host` is reported with.
pub fn resolve_error_message(host: &str, failure: &ResolveFailure) -> (r: String)
    ensures
        r@ == resolve_error_text(host@, *failure),
{
    match failure {
        ResolveFailure::Lookup { error } => {
            let mut r = owned("dns lookup for ");
            r.append(host);
            r.append(": ");
            r.append(error.as_str());
            r
        },
        ResolveFailure::NoAddress => {
            let mut r = owned("no addresses found for ");
            r.append(host);
            r
        },
    }
}

/// What happened when a host was pinged.
#[derive(Debug, Clone)]
pub enum PingOutcome {
    /// No address to ping; `detail` says why.
    Unresolved { detail: String },
    /// An echo reply came from `ip` after `rtt_ms` milliseconds.
    Reply { ip: String, rtt_ms: u128 },
    /// The ping failed with `error` after `elapsed_ms` milliseconds.
    Failed { error: String, elapsed_ms: u128 },
    /// No reply came within the timeout.
    TimedOut,
}

/// The timeout actually waited for: at least one millisecond.
pub open spec fn effective_timeout(timeout_ms: u64) -> u64 {
    if timeout_ms == 0 {
        1
    } else {
        timeout_ms
    }
}

pub fn effective_timeout_ms(timeout_ms: u64) -> (r: u64)
    ensures
        r == effective_timeout(timeout_ms),
        r >= 1,
{
    if timeout_ms == 0 {
        1
    } else {
        timeout_ms
    }
}

/// A millisecond count clamped into `u64`.
pub open spec fn clamp_millis(ms: u128) -> u64 {
    if ms > u64::MAX {
        u64::MAX
    } else {
        ms as u64
    }
}

pub fn saturating_millis(ms: u128) -> (r: u64)
    ensures
        r == clamp_millis(ms),
{
    if ms > u64::MAX as u128 {
        u64::MAX
    } else {
        ms as u64
    }
}

pub open spec fn ping_latency(timeout_ms: u64, outcome: PingOutcome) -> u64 {
    match outcome {
        PingOutcome::Unresolved { .. } => 0,
        PingOutcome::Reply { rtt_ms, .. } => clamp_millis(rtt_ms),
        PingOutcome::Failed { elapsed_ms, .. } => clamp_millis(elapsed_ms),
        PingOutcome::TimedOut => effective_timeout(timeout_ms),
    }
}

pub open spec fn ping_detail(host: Seq<char>, timeout_ms: u64, outcome: PingOutcome) -> Seq<
    char,
> {
    match outcome {
        PingOutcome::Unresolved { detail } => detail@,
        PingOutcome::Reply { ip, .. } => "icmp echo from "@ + host + " ("@ + ip@ + ")"@,
        PingOutcome::Failed { error, .. } => error@,
        PingOutcome::TimedOut => "icmp ping to "@ + host + " timed out after "@ + decimal_spec(
            timeout_ms as nat,
        ) + " ms"@,
    }
}

/// The check result for pinging `host` (with `timeout_ms`) under check `id`.
pub fn ping_run(id: &str, host: &str, timeout_ms: u64, outcome: PingOutcome) -> (r: CheckRun)
    ensures
        r.id@ == id@,
        r.ok == (outcome is Reply),
        r.latency_ms == ping_latency(timeout_ms, outcome),
        r.detail@ == ping_detail(host@, timeout_ms, outcome),
{
    match outcome {
        PingOutcome::Unresolved { detail } => CheckRun {
            id: owned(id),
            ok: false,
            latency_ms: 0,
            detail,
        },
        PingOutcome::Reply { ip, rtt_ms } => {
            let mut detail = owned("icmp echo from ");
            detail.append(host);
            detail.append(" (");
            detail.append(ip.as_str());
            detail.append(")");
            CheckRun { id: owned(id), ok: true, latency_ms: saturating_millis(rtt_ms), detail }
        },
        PingOutcome::Failed { error, elapsed_ms } => CheckRun {
            id: owned(id),
            ok: false,
            latency_ms: saturating_millis(elapsed_ms),
            detail: error,
        },
        PingOutcome::TimedOut => {
            let mut detail = owned("icmp ping to ");
            detail.append(host);
            detail.append(" timed out after ");
            let n = decimal(timeout_ms);
            detail.append(n.as_str());
            detail.append(" ms");
            CheckRun {
                id: owned(id),
                ok: false,
                latency_ms: effective_timeout_ms(timeout_ms),
                detail,
            }
        },
    }
}

/// Seconds between two check cycles: the configured interval, at least one.
pub fn cycle_period_secs(interval: u64) -> (r: u64)
    ensures
        r == (if interval == 0 {
            1
        } else {
            interval
        }),
        r >= 1,
{
    if interval == 0 {
        1
    } else {
        interval
    }
}

/// The latency a ping reports: the measured time for a reply or a failure,
/// clamped into `u64`; the time waited, at least one millisecond, for a
/// timeout; nothing when there was no address.
pub proof fn lemma_ping_latency(timeout_ms: u64, outcome: PingOutcome)
    ensures
        outcome is Unresolved ==> ping_latency(timeout_ms, outcome) == 0,
        outcome is TimedOut ==> ping_latency(timeout_ms, outcome) >= 1 && ping_latency(
            timeout_ms,
            outcome,
        ) >= timeout_ms && ping_latency(timeout_ms, outcome) <= timeout_ms + 1,
        outcome matches PingOutcome::Reply { rtt_ms, .. } ==> (rtt_ms <= u64::MAX
            ==> ping_latency(timeout_ms, outcome) == rtt_ms) && (rtt_ms > u64::MAX
            ==> ping_latency(timeout_ms, outcome) == u64::MAX),
        outcome matches PingOutcome::Failed { elapsed_ms, .. } ==> (elapsed_ms <= u64::MAX
            ==> ping_latency(timeout_ms, outcome) == elapsed_ms) && (elapsed_ms > u64::MAX
            ==> ping_latency(timeout_ms, outcome) == u64::MAX),
{
}

} // verus!
