//! The heartbeat: what one check cycle reports to the push endpoint.

use vstd::prelude::*;

use crate::checks::CheckRun;
use crate::config::AppConfig;
use crate::config::PushConfig;
use crate::text::ascii_lower;
use crate::text::ascii_lower_seq;
use crate::text::byte_len;
use crate::text::chars_of;
use crate::text::decimal;
use crate::text::decimal_spec;
use crate::text::fits_in_bytes;
use crate::text::is_char_boundary;
use crate::text::is_slash;
use crate::text::is_white_space;
use crate::text::leading_slashes;
use crate::text::lemma_trim_end_at;
use crate::text::lemma_trim_start_at;
use crate::text::owned;
use crate::text::prefix_len_within;
use crate::text::prefix_within;
use crate::text::substring;
use crate::text::trim_end_by;
use crate::text::trim_start_by;
use crate::text::trim_ws;
use crate::text::trim_ws_bounds;
use crate::text::utf8_width;
use crate::text::without_trailing_slashes;

verus! {

/// Longest failure summary sent, in bytes, before it is cut.
pub const MAX_MSG_LEN: usize = 1500;

// ---------------------------------------------------------------------------
// Status
// ---------------------------------------------------------------------------

/// The status word sent: the configured one, trimmed and lower-cased, where
/// it is `up` or `down`, and otherwise the one `success` calls for.
pub open spec fn normalized_status(configured: Seq<char>, success: bool) -> Seq<char> {
    let t = ascii_lower_seq(trim_ws(configured));
    if t == "up"@ || t == "down"@ {
        t
    } else if success {
        "up"@
    } else {
        "down"@
    }
}

/// Whether `c` lower-cases to the lower-case letter `d`.
fn lower_matches(c: char, d: char) -> (r: bool)
    requires
        'a' <= d <= 'z',
    ensures
        r == (ascii_lower(c) == d),
{
    c == d || (c as u32) + 32 == (d as u32)
}

/// Whether `v[from..to]`, lower-cased, is `s` (made of lower-case letters).
fn lower_slice_eq(v: &Vec<char>, from: usize, to: usize, s: &str) -> (r: bool)
    requires
        from <= to <= v.len(),
        forall|m: int| 0 <= m < s@.len() ==> 'a' <= #[trigger] s@[m] <= 'z',
    ensures
        r == (ascii_lower_seq(v@.subrange(from as int, to as int)) == s@),
{
    let ghost t = v@.subrange(from as int, to as int);
    let w = chars_of(s);
    if to - from != w.len() {
        assert(ascii_lower_seq(t).len() != s@.len());
        return false;
    }
    let mut k: usize = 0;
    while k < w.len()
        invariant
            k <= w.len(),
            w.len() == to - from,
            from <= to <= v.len(),
            w@ == s@,
            t == v@.subrange(from as int, to as int),
            forall|m: int| 0 <= m < s@.len() ==> 'a' <= #[trigger] s@[m] <= 'z',
            forall|m: int| 0 <= m < k ==> ascii_lower(#[trigger] t[m]) == w@[m],
        decreases w.len() - k,
    {
        assert(t[k as int] == v@[from + k]);
        if !lower_matches(v[from + k], w[k]) {
            assert(ascii_lower_seq(t)[k as int] != s@[k as int]);
            return false;
        }
        k = k + 1;
    }
    assert(ascii_lower_seq(t) =~= s@);
    true
}

/// The status word for a heartbeat; it is always `up` or `down`.
pub fn normalize_status(configured: &str, success: bool) -> (r: String)
    ensures
        r@ == normalized_status(configured@, success),
        r@ == "up"@ || r@ == "down"@,
{
    proof {
        reveal_strlit("up");
        reveal_strlit("down");
    }
    let v = chars_of(configured);
    let (i, j) = trim_ws_bounds(&v);
    if lower_slice_eq(&v, i, j, "up") {
        owned("up")
    } else if lower_slice_eq(&v, i, j, "down") {
        owned("down")
    } else if success {
        owned("up")
    } else {
        owned("down")
    }
}

// ---------------------------------------------------------------------------
// Failure summary
// ---------------------------------------------------------------------------

/// How one failed check is described.
pub open spec fn failure_line(run: CheckRun) -> Seq<char> {
    run.id@ + ": "@ + run.detail@
}

/// The descriptions of the failed checks among `runs`, in order.
pub open spec fn failure_lines(runs: Seq<CheckRun>) -> Seq<Seq<char>>
    decreases runs.len(),
{
    if runs.len() == 0 {
        seq![]
    } else if runs.last().ok {
        failure_lines(runs.drop_last())
    } else {
        failure_lines(runs.drop_last()).push(failure_line(runs.last()))
    }
}

/// `parts` joined with `sep` between each two of them.
pub open spec fn join(parts: Seq<Seq<char>>, sep: Seq<char>) -> Seq<char>
    decreases parts.len(),
{
    if parts.len() == 0 {
        seq![]
    } else if parts.len() == 1 {
        parts[0]
    } else {
        join(parts.drop_last(), sep) + sep + parts.last()
    }
}

pub open spec fn failure_summary(runs: Seq<CheckRun>) -> Seq<char> {
    join(failure_lines(runs), "; "@)
}

/// `id: detail` of each failed run, joined by `; `.
pub fn summarize_failures(runs: &[CheckRun]) -> (r: String)
    ensures
        r@ == failure_summary(runs@),
{
    let mut r = owned("");
    let mut any = false;
    let mut i: usize = 0;
    proof {
        reveal_strlit("");
        assert(runs@.take(0) =~= Seq::<CheckRun>::empty());
    }
    while i < runs.len()
        invariant
            i <= runs.len(),
            r@ == join(failure_lines(runs@.take(i as int)), "; "@),
            any == (failure_lines(runs@.take(i as int)).len() > 0),
        decreases runs.len() - i,
    {
        let ghost prev = runs@.take(i as int);
        assert(runs@.take(i + 1).drop_last() =~= prev);
        assert(runs@.take(i + 1).last() == runs@[i as int]);
        let run = &runs[i];
        if !run.ok {
            let ghost parts = failure_lines(prev);
            assert(parts.push(failure_line(*run)).drop_last() =~= parts);
            if any {
                r.append("; ");
            }
            r.append(run.id.as_str());
            r.append(": ");
            r.append(run.detail.as_str());
            any = true;
            assert(r@ =~= join(parts.push(failure_line(*run)), "; "@));
        }
        i = i + 1;
    }
    assert(runs@.take(runs@.len() as int) =~= runs@);
    r
}

// ---------------------------------------------------------------------------
// Truncation
// ---------------------------------------------------------------------------

/// Where a message longer than `max` bytes is cut: one byte short of
/// `max`, to leave room for the ellipsis.
pub open spec fn cut_point(max: nat) -> nat {
    if max == 0 {
        0
    } else {
        (max - 1) as nat
    }
}

/// `s` unchanged if its encoding fits in `max` bytes; otherwise its longest
/// prefix that fits in `max - 1` bytes, followed by `…`.
pub open spec fn truncated(s: Seq<char>, max: nat) -> Seq<char> {
    if byte_len(s) <= max {
        s
    } else {
        prefix_within(s, cut_point(max) as int).push('…')
    }
}

/// `truncate` cuts `s` at a byte offset; it is defined where that offset
/// falls between two characters.
pub open spec fn can_truncate(s: Seq<char>, max: nat) -> bool {
    byte_len(s) <= max || is_char_boundary(s, cut_point(max) as int)
}

/// Shortens `s` to about `max` bytes, marking the cut with `…`.
pub fn truncate(s: String, max: usize) -> (r: String)
    requires
        can_truncate(s@, max as nat),
    ensures
        r@ == truncated(s@, max as nat),
{
    let v = chars_of(s.as_str());
    if fits_in_bytes(&v, max) {
        return s;
    }
    let n: usize = if max == 0 {
        0
    } else {
        max - 1
    };
    let k = prefix_len_within(&v, n);
    let mut r = substring(s.as_str(), 0, k);
    r.append("…");
    proof {
        reveal_strlit("…");
        assert(s@.subrange(0, k as int) =~= v@.take(k as int));
    }
    r
}

// ---------------------------------------------------------------------------
// Endpoint
// ---------------------------------------------------------------------------

/// The push URL: the base URL without trailing `/`, a `/`, and the token
/// without leading `/`.
pub open spec fn push_endpoint(url: Seq<char>, token: Seq<char>) -> Seq<char> {
    trim_end_by(url, |c: char| is_slash(c)) + "/"@ + trim_start_by(token, |c: char| is_slash(c))
}

pub fn build_push_endpoint(push: &PushConfig) -> (r: String)
    ensures
        r@ == push_endpoint(push.url@, push.token@),
{
    let url = chars_of(push.url.as_str());
    let token = chars_of(push.token.as_str());
    let j = without_trailing_slashes(&url);
    let i = leading_slashes(&token);
    let mut r = substring(push.url.as_str(), 0, j);
    r.append("/");
    let rest = substring(push.token.as_str(), i, token.len());
    r.append(rest.as_str());
    r
}

// ---------------------------------------------------------------------------
// The heartbeat
// ---------------------------------------------------------------------------

/// Every check passed.
pub open spec fn all_ok(runs: Seq<CheckRun>) -> bool {
    forall|i: int| 0 <= i < runs.len() ==> (#[trigger] runs[i]).ok
}

pub fn all_passed(runs: &[CheckRun]) -> (r: bool)
    ensures
        r == all_ok(runs@),
{
    let mut i: usize = 0;
    while i < runs.len()
        invariant
            i <= runs.len(),
            forall|k: int| 0 <= k < i ==> (#[trigger] runs@[k]).ok,
        decreases runs.len() - i,
    {
        if !runs[i].ok {
            return false;
        }
        i = i + 1;
    }
    true
}

/// The largest latency among the passed checks, or 0 when none passed.
pub open spec fn max_ok_latency(runs: Seq<CheckRun>) -> u64
    decreases runs.len(),
{
    if runs.len() == 0 {
        0
    } else {
        let m = max_ok_latency(runs.drop_last());
        if runs.last().ok && runs.last().latency_ms > m {
            runs.last().latency_ms
        } else {
            m
        }
    }
}

pub fn ping_ms(runs: &[CheckRun]) -> (r: u64)
    ensures
        r == max_ok_latency(runs@),
        forall|i: int| 0 <= i < runs@.len() && (#[trigger] runs@[i]).ok ==> runs@[i].latency_ms
            <= r,
        r == 0 || exists|i: int|
            0 <= i < runs@.len() && (#[trigger] runs@[i]).ok && runs@[i].latency_ms == r,
{
    let mut m: u64 = 0;
    let mut i: usize = 0;
    assert(runs@.take(0) =~= Seq::<CheckRun>::empty());
    while i < runs.len()
        invariant
            i <= runs.len(),
            m == max_ok_latency(runs@.take(i as int)),
            forall|k: int| 0 <= k < i && (#[trigger] runs@[k]).ok ==> runs@[k].latency_ms <= m,
            m == 0 || exists|k: int| 0 <= k < i && (#[trigger] runs@[k]).ok && runs@[k].latency_ms == m,
        decreases runs.len() - i,
    {
        assert(runs@.take(i + 1).drop_last() =~= runs@.take(i as int));
        assert(runs@.take(i + 1).last() == runs@[i as int]);
        if runs[i].ok && runs[i].latency_ms > m {
            m = runs[i].latency_ms;
        }
        i = i + 1;
    }
    assert(runs@.take(runs@.len() as int) =~= runs@);
    m
}

/// The status word of a heartbeat.
pub open spec fn heartbeat_status(push: PushConfig, runs: Seq<CheckRun>) -> Seq<char> {
    if all_ok(runs) {
        normalized_status(push.default_status@, true)
    } else {
        "down"@
    }
}

/// The message of a heartbeat.
pub open spec fn heartbeat_message(push: PushConfig, runs: Seq<CheckRun>) -> Seq<char> {
    if all_ok(runs) {
        push.default_msg@
    } else {
        truncated(failure_summary(runs), MAX_MSG_LEN as nat)
    }
}

/// The heartbeat request is defined unless a failure summary has to be cut
/// inside a character.
pub open spec fn heartbeat_defined(runs: Seq<CheckRun>) -> bool {
    all_ok(runs) || can_truncate(failure_summary(runs), MAX_MSG_LEN as nat)
}

/// A GET request to `endpoint` with the query pairs in order.
#[derive(Debug, Clone)]
pub struct PushRequest {
    pub endpoint: String,
    pub query: Vec<(String, String)>,
}

/// The request that reports `runs`: `status`, `msg`, and `ping` where some
/// passed check took a nonzero time.
pub fn push_request(config: &AppConfig, runs: &[CheckRun]) -> (r: PushRequest)
    requires
        heartbeat_defined(runs@),
    ensures
        r.endpoint@ == push_endpoint(config.push.url@, config.push.token@),
        r.query@.len() == (if max_ok_latency(runs@) > 0 {
            3int
        } else {
            2int
        }),
        r.query@[0].0@ == "status"@,
        r.query@[0].1@ == heartbeat_status(config.push, runs@),
        r.query@[1].0@ == "msg"@,
        r.query@[1].1@ == heartbeat_message(config.push, runs@),
        max_ok_latency(runs@) > 0 ==> r.query@[2].0@ == "ping"@ && r.query@[2].1@
            == decimal_spec(max_ok_latency(runs@) as nat),
{
    let ok = all_passed(runs);
    let status = if ok {
        normalize_status(config.push.default_status.as_str(), true)
    } else {
        owned("down")
    };
    let msg = if ok {
        config.push.default_msg.clone()
    } else {
        truncate(summarize_failures(runs), MAX_MSG_LEN)
    };
    let ping = ping_ms(runs);
    let endpoint = build_push_endpoint(&config.push);
    let mut query: Vec<(String, String)> = Vec::new();
    query.push((owned("status"), status));
    query.push((owned("msg"), msg));
    if ping > 0 {
        query.push((owned("ping"), decimal(ping)));
    }
    PushRequest { endpoint, query }
}

/// Whether the push endpoint accepted the heartbeat: a 2xx status.
pub fn push_accepted(status: u16) -> (r: bool)
    ensures
        r == (200 <= status <= 299),
{
    200 <= status && status <= 299
}

} // verus!

verus! {

// ---------------------------------------------------------------------------
// Laws
// ---------------------------------------------------------------------------

/// A heartbeat's status word is `up` or `down`, and it is `down` whenever a
/// check failed.
pub proof fn lemma_heartbeat_status_word(push: PushConfig, runs: Seq<CheckRun>)
    ensures
        heartbeat_status(push, runs) == "up"@ || heartbeat_status(push, runs) == "down"@,
        !all_ok(runs) ==> heartbeat_status(push, runs) == "down"@,
        all_ok(runs) ==> heartbeat_status(push, runs) == normalized_status(
            push.default_status@,
            true,
        ),
{
}

/// Normalizing a status word a second time changes nothing.
pub proof fn lemma_normalize_status_idempotent(configured: Seq<char>, first: bool, second: bool)
    ensures
        normalized_status(normalized_status(configured, first), second) == normalized_status(
            configured,
            first,
        ),
{
    reveal_strlit("up");
    reveal_strlit("down");
    let t = normalized_status(configured, first);
    let ws = |c: char| is_white_space(c);
    assert(trim_start_by(t, ws) == t);
    assert(trim_end_by(t, ws) == t);
    assert(ascii_lower_seq(t) =~= t);
}

proof fn lemma_failure_lines_empty(runs: Seq<CheckRun>)
    ensures
        failure_lines(runs).len() == 0 <==> all_ok(runs),
    decreases runs.len(),
{
    if runs.len() > 0 {
        let init = runs.drop_last();
        lemma_failure_lines_empty(init);
        if all_ok(runs) {
            assert forall|i: int| 0 <= i < init.len() implies (#[trigger] init[i]).ok by {
                assert(init[i] == runs[i]);
            }
        }
        if all_ok(init) && runs.last().ok {
            assert forall|i: int| 0 <= i < runs.len() implies (#[trigger] runs[i]).ok by {
                if i < init.len() {
                    assert(init[i] == runs[i]);
                }
            }
        }
    }
}

proof fn lemma_join_nonempty(parts: Seq<Seq<char>>, sep: Seq<char>)
    requires
        parts.len() > 0,
        parts.last().len() > 0,
    ensures
        join(parts, sep).len() > 0,
{
}

/// The failure summary is empty exactly when every check passed.
pub proof fn lemma_summary_empty_iff_all_ok(runs: Seq<CheckRun>)
    ensures
        failure_summary(runs).len() == 0 <==> all_ok(runs),
{
    reveal_strlit(": ");
    lemma_failure_lines_empty(runs);
    let parts = failure_lines(runs);
    if parts.len() > 0 {
        lemma_failure_lines_shape(runs);
        lemma_join_nonempty(parts, "; "@);
    }
}

proof fn lemma_failure_lines_shape(runs: Seq<CheckRun>)
    ensures
        forall|i: int|
            0 <= i < failure_lines(runs).len() ==> (#[trigger] failure_lines(runs)[i]).len()
                >= 2,
    decreases runs.len(),
{
    reveal_strlit(": ");
    if runs.len() > 0 {
        let init = runs.drop_last();
        lemma_failure_lines_shape(init);
        let prev = failure_lines(init);
        let line = failure_line(runs.last());
        assert(line.len() >= 2);
        assert forall|i: int| 0 <= i < failure_lines(runs).len() implies (
        #[trigger] failure_lines(runs)[i]).len() >= 2 by {
            if !runs.last().ok && i == prev.len() {
                assert(failure_lines(runs)[i] == line);
            } else {
                assert(failure_lines(runs)[i] == prev[i]);
            }
        }
    }
}

proof fn lemma_prefix_within_fits(s: Seq<char>, n: int)
    requires
        n >= 0,
    ensures
        byte_len(prefix_within(s, n)) <= n,
        prefix_within(s, n).is_prefix_of(s),
    decreases s.len(),
{
    if s.len() == 0 || byte_len(s) <= n {
    } else {
        lemma_prefix_within_fits(s.drop_last(), n);
    }
}

/// A cut message is a prefix of the original followed by `…`, and is at
/// most two bytes longer than the limit; a message that fits is unchanged.
pub proof fn lemma_truncated_shape(s: Seq<char>, max: nat)
    requires
        max >= 1,
    ensures
        byte_len(truncated(s, max)) <= max + 2,
        byte_len(s) <= max ==> truncated(s, max) == s,
        byte_len(s) > max ==> truncated(s, max).last() == '…' && truncated(
            s,
            max,
        ).drop_last().is_prefix_of(s),
{
    if byte_len(s) > max {
        let p = prefix_within(s, cut_point(max) as int);
        lemma_prefix_within_fits(s, cut_point(max) as int);
        assert(p.push('…').drop_last() =~= p);
    }
}

/// Slashes at the end of the base URL or at the start of the token do not
/// change the push endpoint.
pub proof fn lemma_push_endpoint_slashes(url: Seq<char>, token: Seq<char>)
    ensures
        push_endpoint(url.push('/'), token) == push_endpoint(url, token),
        push_endpoint(url, seq!['/'] + token) == push_endpoint(url, token),
{
    let p = |c: char| is_slash(c);
    assert(url.push('/').drop_last() =~= url);
    assert((seq!['/'] + token).drop_first() =~= token);
    assert(trim_end_by(url.push('/'), p) == trim_end_by(url, p));
    assert(trim_start_by(seq!['/'] + token, p) == trim_start_by(token, p));
}

/// A heartbeat carries `ping` exactly when some passed check took a
/// nonzero time.
pub proof fn lemma_ping_sent_iff(runs: Seq<CheckRun>)
    ensures
        max_ok_latency(runs) > 0 <==> exists|i: int|
            0 <= i < runs.len() && (#[trigger] runs[i]).ok && runs[i].latency_ms > 0,
    decreases runs.len(),
{
    if runs.len() > 0 {
        let init = runs.drop_last();
        lemma_ping_sent_iff(init);
        if max_ok_latency(init) > 0 {
            let i = choose|i: int|
                0 <= i < init.len() && (#[trigger] init[i]).ok && init[i].latency_ms > 0;
            assert(runs[i] == init[i]);
        }
        if exists|i: int| 0 <= i < runs.len() && (#[trigger] runs[i]).ok && runs[i].latency_ms > 0 {
            let i = choose|i: int|
                0 <= i < runs.len() && (#[trigger] runs[i]).ok && runs[i].latency_ms > 0;
            if i < init.len() {
                assert(init[i] == runs[i]);
            }
        }
        assert(runs.last() == runs[runs.len() - 1]);
    }
}

/// Cutting a message a second time, with the same limit, changes nothing.
pub proof fn lemma_truncate_idempotent(s: Seq<char>, max: nat)
    requires
        can_truncate(s, max),
    ensures
        can_truncate(truncated(s, max), max),
        truncated(truncated(s, max), max) == truncated(s, max),
{
    if byte_len(s) > max {
        let n = cut_point(max) as int;
        let p = prefix_within(s, n);
        let t = p.push('…');
        assert(t.drop_last() =~= p);
        assert(t.last() == '…');
        assert(utf8_width('…') == 3);
        assert(byte_len(t) == byte_len(p) + 3);
        assert(byte_len(p) == n);
        assert(n >= 0);
        assert(byte_len(t) > n);
        assert(prefix_within(p, n) == p);
        assert(prefix_within(t, n) == prefix_within(t.drop_last(), n));
        assert(prefix_within(t, n) == p);
    }
}

proof fn lemma_failure_lines_concat(a: Seq<CheckRun>, b: Seq<CheckRun>)
    ensures
        failure_lines(a + b) == failure_lines(a) + failure_lines(b),
    decreases b.len(),
{
    if b.len() == 0 {
        assert(a + b =~= a);
        assert(failure_lines(a) + failure_lines(b) =~= failure_lines(a));
    } else {
        assert((a + b).drop_last() =~= a + b.drop_last());
        assert((a + b).last() == b.last());
        lemma_failure_lines_concat(a, b.drop_last());
        assert(failure_lines(a + b) =~= failure_lines(a) + failure_lines(b));
    }
}

/// A passed check, wherever it stands among the runs, does not change the
/// failure summary.
pub proof fn lemma_passed_run_not_summarized(a: Seq<CheckRun>, run: CheckRun, b: Seq<CheckRun>)
    requires
        run.ok,
    ensures
        failure_summary(a.push(run) + b) == failure_summary(a + b),
{
    lemma_failure_lines_concat(a.push(run), b);
    lemma_failure_lines_concat(a, b);
    assert(a.push(run).drop_last() =~= a);
    assert(failure_lines(a.push(run)) == failure_lines(a));
}

// ---------------------------------------------------------------------------
// The endpoint keeps both parts as given
// ---------------------------------------------------------------------------

/// `s[j..]` is the run of `/` that `s` ends with.
pub open spec fn trailing_slashes_from(s: Seq<char>, j: int) -> bool {
    &&& 0 <= j <= s.len()
    &&& forall|k: int| j <= k < s.len() ==> #[trigger] s[k] == '/'
    &&& (j == 0 || s[j - 1] != '/')
}

/// `s[..i]` is the run of `/` that `s` starts with.
pub open spec fn leading_slashes_to(s: Seq<char>, i: int) -> bool {
    &&& 0 <= i <= s.len()
    &&& forall|k: int| 0 <= k < i ==> #[trigger] s[k] == '/'
    &&& (i == s.len() || s[i] != '/')
}

proof fn lemma_trim_start_slash_index(s: Seq<char>) -> (i: int)
    ensures
        leading_slashes_to(s, i),
        trim_start_by(s, |c: char| is_slash(c)) == s.subrange(i, s.len() as int),
    decreases s.len(),
{
    if s.len() > 0 && s[0] == '/' {
        let t = s.drop_first();
        let i0 = lemma_trim_start_slash_index(t);
        assert forall|k: int| 0 <= k < i0 + 1 implies #[trigger] s[k] == '/' by {
            if k > 0 {
                assert(s[k] == t[k - 1]);
            }
        }
        if i0 < t.len() {
            assert(s[i0 + 1] == t[i0]);
        }
        assert(t.subrange(i0, t.len() as int) =~= s.subrange(i0 + 1, s.len() as int));
        i0 + 1
    } else {
        assert(s.subrange(0, s.len() as int) =~= s);
        0
    }
}

proof fn lemma_trim_end_slash_index(s: Seq<char>) -> (j: int)
    ensures
        trailing_slashes_from(s, j),
        trim_end_by(s, |c: char| is_slash(c)) == s.subrange(0, j),
    decreases s.len(),
{
    if s.len() > 0 && s.last() == '/' {
        let t = s.drop_last();
        let j0 = lemma_trim_end_slash_index(t);
        assert forall|k: int| j0 <= k < s.len() implies #[trigger] s[k] == '/' by {
            if k < t.len() {
                assert(s[k] == t[k]);
            }
        }
        if j0 > 0 {
            assert(s[j0 - 1] == t[j0 - 1]);
        }
        assert(t.subrange(0, j0) =~= s.subrange(0, j0));
        j0
    } else {
        assert(s.subrange(0, s.len() as int) =~= s);
        s.len() as int
    }
}

/// The push endpoint is the base URL without its trailing `/`, one `/`,
/// and the token without its leading `/`; both parts keep their characters
/// exactly as given.
pub proof fn lemma_push_endpoint_keeps_parts(url: Seq<char>, token: Seq<char>)
    ensures
        exists|j: int, i: int|
            #![trigger trailing_slashes_from(url, j), leading_slashes_to(token, i)]
            trailing_slashes_from(url, j) && leading_slashes_to(token, i) && push_endpoint(url, token)
                == url.subrange(0, j) + seq!['/'] + token.subrange(i, token.len() as int),
{
    reveal_strlit("/");
    let j = lemma_trim_end_slash_index(url);
    let i = lemma_trim_start_slash_index(token);
    assert("/"@ =~= seq!['/']);
    assert(trailing_slashes_from(url, j) && leading_slashes_to(token, i));
}

// ---------------------------------------------------------------------------
// The failure summary lists every failure once, in order
// ---------------------------------------------------------------------------

proof fn lemma_join_concat(p: Seq<Seq<char>>, q: Seq<Seq<char>>, sep: Seq<char>)
    requires
        p.len() > 0,
        q.len() > 0,
    ensures
        join(p + q, sep) == join(p, sep) + sep + join(q, sep),
    decreases q.len(),
{
    assert((p + q).drop_last() =~= p + q.drop_last());
    assert((p + q).last() == q.last());
    if q.len() == 1 {
        assert(p + q.drop_last() =~= p);
        assert(q.last() == q[0]);
    } else {
        lemma_join_concat(p, q.drop_last(), sep);
    }
}

/// The summary of one run: its line when it failed, nothing when it passed.
pub proof fn lemma_failure_summary_single(run: CheckRun)
    ensures
        failure_summary(seq![run]) == (if run.ok {
            Seq::<char>::empty()
        } else {
            run.id@ + ": "@ + run.detail@
        }),
{
    assert(seq![run].drop_last() =~= Seq::<CheckRun>::empty());
    assert(seq![run].last() == run);
    assert(failure_lines(Seq::<CheckRun>::empty()) == Seq::<Seq<char>>::empty());
    assert(join(Seq::<Seq<char>>::empty(), "; "@) == Seq::<char>::empty());
    if !run.ok {
        let lines = Seq::<Seq<char>>::empty().push(failure_line(run));
        assert(failure_lines(seq![run]) == lines);
        assert(lines.len() == 1 && lines[0] == failure_line(run));
        assert(join(lines, "; "@) == failure_line(run));
    } else {
        assert(failure_lines(seq![run]) == Seq::<Seq<char>>::empty());
    }
}

/// The summary of runs taken in two parts that both hold a failure is the
/// summary of the first part, `; `, and the summary of the second.
pub proof fn lemma_failure_summary_concat(a: Seq<CheckRun>, b: Seq<CheckRun>)
    requires
        !all_ok(a),
        !all_ok(b),
    ensures
        failure_summary(a + b) == failure_summary(a) + "; "@ + failure_summary(b),
{
    lemma_failure_lines_concat(a, b);
    lemma_failure_lines_empty(a);
    lemma_failure_lines_empty(b);
    lemma_join_concat(failure_lines(a), failure_lines(b), "; "@);
}

/// `part` stands somewhere in `whole`.
pub open spec fn occurs_in(part: Seq<char>, whole: Seq<char>) -> bool {
    exists|k: int| 0 <= k && k + part.len() <= whole.len() && #[trigger] whole.subrange(k, k + part.len()) == part
}

proof fn lemma_join_contains(parts: Seq<Seq<char>>, sep: Seq<char>, i: int)
    requires
        0 <= i < parts.len(),
    ensures
        occurs_in(parts[i], join(parts, sep)),
    decreases parts.len(),
{
    let w = join(parts, sep);
    let x = parts[i];
    if parts.len() == 1 {
        assert(w == x);
        let k: int = 0;
        assert(w.subrange(k, k + x.len()) =~= x);
        assert(occurs_in(x, w));
    } else {
        let head = join(parts.drop_last(), sep);
        assert(w == head + sep + parts.last());
        if i == parts.len() - 1 {
            let k: int = (head.len() + sep.len()) as int;
            assert(x == parts.last());
            assert(w.subrange(k, k + x.len()) =~= x);
            assert(occurs_in(x, w));
        } else {
            lemma_join_contains(parts.drop_last(), sep, i);
            assert(parts.drop_last()[i] == x);
            let k = choose|k: int|
                0 <= k && k + x.len() <= head.len() && #[trigger] head.subrange(k, k + x.len()) == x;
            assert(w.subrange(k, k + x.len()) =~= head.subrange(k, k + x.len()));
            assert(occurs_in(x, w));
        }
    }
}

proof fn lemma_failure_lines_index(runs: Seq<CheckRun>, i: int) -> (j: int)
    requires
        0 <= i < runs.len(),
        !runs[i].ok,
    ensures
        0 <= j < failure_lines(runs).len(),
        failure_lines(runs)[j] == runs[i].id@ + ": "@ + runs[i].detail@,
    decreases runs.len(),
{
    let init = runs.drop_last();
    if i == runs.len() - 1 {
        assert(runs.last() == runs[i]);
        failure_lines(init).len() as int
    } else {
        assert(init[i] == runs[i]);
        let j = lemma_failure_lines_index(init, i);
        j
    }
}

/// When a check failed, the heartbeat message is the failure summary of all
/// runs, cut to the length limit; when that summary fits, the line
/// `id: detail` of every failed run stands in the message.
pub proof fn lemma_heartbeat_message_reports_failures(push: PushConfig, runs: Seq<CheckRun>)
    requires
        !all_ok(runs),
    ensures
        heartbeat_message(push, runs) == truncated(failure_summary(runs), MAX_MSG_LEN as nat),
        byte_len(failure_summary(runs)) <= MAX_MSG_LEN ==> forall|i: int|
            0 <= i < runs.len() && !(#[trigger] runs[i]).ok ==> occurs_in(
                runs[i].id@ + ": "@ + runs[i].detail@,
                heartbeat_message(push, runs),
            ),
{
    if byte_len(failure_summary(runs)) <= MAX_MSG_LEN {
        assert forall|i: int| 0 <= i < runs.len() && !(#[trigger] runs[i]).ok implies occurs_in(
            runs[i].id@ + ": "@ + runs[i].detail@,
            heartbeat_message(push, runs),
        ) by {
            let j = lemma_failure_lines_index(runs, i);
            lemma_join_contains(failure_lines(runs), "; "@, j);
        }
    }
}

/// Where it is cut, a message keeps exactly the bytes before the cut point,
/// as a prefix of the original, followed by `…`.
pub proof fn lemma_truncated_keeps_cut_prefix(s: Seq<char>, max: nat)
    requires
        can_truncate(s, max),
        byte_len(s) > max,
    ensures
        truncated(s, max).last() == '…',
        truncated(s, max).drop_last().is_prefix_of(s),
        byte_len(truncated(s, max).drop_last()) == (if max == 0 {
            0
        } else {
            max - 1
        }),
{
    let p = prefix_within(s, cut_point(max) as int);
    lemma_prefix_within_fits(s, cut_point(max) as int);
    assert(p.push('…').drop_last() =~= p);
}

// ---------------------------------------------------------------------------
// What the status word depends on
// ---------------------------------------------------------------------------

/// Every character of `s` satisfies `p`.
pub open spec fn all_by(s: Seq<char>, p: spec_fn(char) -> bool) -> bool {
    forall|i: int| 0 <= i < s.len() ==> p(#[trigger] s[i])
}

proof fn lemma_trim_start_skips_prefix(w: Seq<char>, x: Seq<char>, p: spec_fn(char) -> bool)
    requires
        all_by(w, p),
    ensures
        trim_start_by(w + x, p) == trim_start_by(x, p),
    decreases w.len(),
{
    if w.len() > 0 {
        assert((w + x)[0] == w[0]);
        assert((w + x).drop_first() =~= w.drop_first() + x);
        assert(all_by(w.drop_first(), p)) by {
            assert forall|i: int| 0 <= i < w.drop_first().len() implies p(
                #[trigger] w.drop_first()[i],
            ) by {
                assert(w.drop_first()[i] == w[i + 1]);
            }
        }
        lemma_trim_start_skips_prefix(w.drop_first(), x, p);
    } else {
        assert(w + x =~= x);
    }
}

proof fn lemma_trim_end_skips_suffix(x: Seq<char>, w: Seq<char>, p: spec_fn(char) -> bool)
    requires
        all_by(w, p),
    ensures
        trim_end_by(x + w, p) == trim_end_by(x, p),
    decreases w.len(),
{
    if w.len() > 0 {
        assert((x + w).last() == w.last());
        assert(p(w[w.len() - 1]));
        assert((x + w).drop_last() =~= x + w.drop_last());
        assert(all_by(w.drop_last(), p)) by {
            assert forall|i: int| 0 <= i < w.drop_last().len() implies p(
                #[trigger] w.drop_last()[i],
            ) by {
                assert(w.drop_last()[i] == w[i]);
            }
        }
        lemma_trim_end_skips_suffix(x, w.drop_last(), p);
    } else {
        assert(x + w =~= x);
    }
}

proof fn lemma_trim_both_skips_suffix(c: Seq<char>, w: Seq<char>, p: spec_fn(char) -> bool)
    requires
        all_by(w, p),
    ensures
        trim_end_by(trim_start_by(c + w, p), p) == trim_end_by(trim_start_by(c, p), p),
    decreases c.len(),
{
    if c.len() == 0 {
        assert(c + w =~= w);
        lemma_trim_start_skips_prefix(w, Seq::<char>::empty(), p);
        assert(w + Seq::<char>::empty() =~= w);
    } else if p(c[0]) {
        assert((c + w)[0] == c[0]);
        assert((c + w).drop_first() =~= c.drop_first() + w);
        lemma_trim_both_skips_suffix(c.drop_first(), w, p);
    } else {
        assert((c + w)[0] == c[0]);
        lemma_trim_end_skips_suffix(c, w, p);
    }
}

/// White space around the configured status word does not change the
/// status sent.
pub proof fn lemma_normalize_status_ignores_white_space(
    w1: Seq<char>,
    c: Seq<char>,
    w2: Seq<char>,
    success: bool,
)
    requires
        forall|i: int| 0 <= i < w1.len() ==> is_white_space(#[trigger] w1[i]),
        forall|i: int| 0 <= i < w2.len() ==> is_white_space(#[trigger] w2[i]),
    ensures
        normalized_status(w1 + c + w2, success) == normalized_status(c, success),
{
    let p = |ch: char| is_white_space(ch);
    assert(all_by(w1, p));
    assert(all_by(w2, p));
    assert(w1 + c + w2 =~= w1 + (c + w2));
    lemma_trim_start_skips_prefix(w1, c + w2, p);
    lemma_trim_both_skips_suffix(c, w2, p);
    assert(trim_ws(w1 + c + w2) == trim_ws(c));
}

/// `c` spells the lower-case ASCII `word` in any mix of upper and lower case.
pub open spec fn spells_caseless(c: Seq<char>, word: Seq<char>) -> bool {
    &&& c.len() == word.len()
    &&& forall|i: int|
        0 <= i < c.len() ==> #[trigger] c[i] == word[i] || (c[i] as u32) + 32 == (word[i] as u32)
}

proof fn lemma_spells_caseless_lower(c: Seq<char>, word: Seq<char>)
    requires
        forall|i: int| 0 <= i < word.len() ==> 'a' <= #[trigger] word[i] <= 'z',
    ensures
        spells_caseless(c, word) <==> ascii_lower_seq(c) == word,
{
    if spells_caseless(c, word) {
        assert forall|i: int| 0 <= i < c.len() implies #[trigger] ascii_lower_seq(c)[i]
            == word[i] by {
            assert(c[i] == word[i] || (c[i] as u32) + 32 == (word[i] as u32));
            assert('a' <= word[i] <= 'z');
        }
        assert(ascii_lower_seq(c) =~= word);
    }
    if ascii_lower_seq(c) == word {
        assert forall|i: int| 0 <= i < c.len() implies #[trigger] c[i] == word[i] || (
        c[i] as u32) + 32 == (word[i] as u32) by {
            assert(ascii_lower_seq(c)[i] == ascii_lower(c[i]));
        }
    }
}

/// For a word without white space: any capitalisation of `up` or `down`
/// gives that word, and any other word gives `up` on success and `down`
/// otherwise.
pub proof fn lemma_normalize_status_words(c: Seq<char>, success: bool)
    requires
        forall|i: int| 0 <= i < c.len() ==> !is_white_space(#[trigger] c[i]),
    ensures
        spells_caseless(c, "up"@) ==> normalized_status(c, success) == "up"@,
        spells_caseless(c, "down"@) ==> normalized_status(c, success) == "down"@,
        !spells_caseless(c, "up"@) && !spells_caseless(c, "down"@) ==> normalized_status(
            c,
            success,
        ) == (if success {
            "up"@
        } else {
            "down"@
        }),
{
    reveal_strlit("up");
    reveal_strlit("down");
    let p = |ch: char| is_white_space(ch);
    lemma_trim_start_at(c, p, 0);
    assert(c.subrange(0, c.len() as int) =~= c);
    lemma_trim_end_at(c, p, c.len() as int);
    assert(trim_ws(c) == c);
    lemma_spells_caseless_lower(c, "up"@);
    lemma_spells_caseless_lower(c, "down"@);
}

} // verus!
