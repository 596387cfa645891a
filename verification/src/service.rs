//! What holds of the service: its upkeep, its settings, its limits and its responses.

use crate::config;
use crate::config::{Setting, PRODUCTION_METRICS_PORT, TEST_METRICS_PORT};
use crate::exchange;
use crate::exchange::{Attempt, Verdict};
use crate::http;
use crate::limits;
use crate::limits::{Limits, DEFAULT_MAX_INFLIGHT_TCP, DEFAULT_MAX_INFLIGHT_UDP};
use crate::maintenance;
use crate::proxy::App;
use crate::readings;
use crate::redirects::Timestamp;
use crate::text;
use vstd::prelude::*;
use vstd::utf8;

verus! {

/// Ticks are counted from zero to 255, round and round, and every fifth one is a
/// time to look at the list files.
pub proof fn law_every_fifth_tick(ticks: u8, k: int)
    requires
        0 <= k < 52,
    ensures
        ticks < 255 ==> maintenance::next_tick(ticks) == ticks + 1,
        ticks == 255 ==> maintenance::next_tick(ticks) == 0,
        5 * k < ticks < 5 * k + 5 ==> !maintenance::due(ticks),
        ticks == 5 * k ==> maintenance::due(ticks),
{
}

/// An answer is handed on and keeps its connection; any failure costs the connection.
/// A second attempt is made exactly where a connection that was reused broke.
pub proof fn law_attempts(reused: bool, attempt: Attempt)
    ensures
        exchange::verdict(reused, attempt) == Verdict::Deliver <==> attempt == Attempt::Answered,
        exchange::verdict(reused, attempt) == Verdict::Retry <==> reused && attempt
            == Attempt::Broken,
        exchange::keeps(attempt) <==> attempt == Attempt::Answered,
{
}

/// Whether a text is a number: its digits, with or without zeros and a plus sign in
/// front.
pub open spec fn writes_number(s: Seq<char>, n: nat) -> bool {
    exists|count: nat|
        s == #[trigger] readings::zeros(count) + text::decimal(n) || s == seq!['+'] + (
        readings::zeros(count) + text::decimal(n))
}

/// A limit is what its setting says, white space round it aside, where that is a
/// number above zero that fits; else it is the default, 4096 queries over UDP and
/// 1024 connections over TCP.
pub proof fn law_limit_settings(value: &str, default: nat, n: nat)
    ensures
        limits::limit_of(None, default) == default,
        writes_number(text::trimmed(value@), n) ==> limits::limit_of(Some(value), default) == (if 0
            < n <= usize::MAX {
            n
        } else {
            default
        }),
        (forall|m: nat| !writes_number(text::trimmed(value@), m)) ==> limits::limit_of(
            Some(value),
            default,
        ) == default,
        DEFAULT_MAX_INFLIGHT_UDP == 4096,
        DEFAULT_MAX_INFLIGHT_TCP == 1024,
{
    let s = text::trimmed(value@);
    lemma_numbers(s, n, usize::MAX as nat);
}

/// The rewrite TTL is what its setting says, white space round it aside, where that
/// is a number of 32 bits; else it is 30.
pub proof fn law_ttl_setting(value: &str, n: nat)
    ensures
        config::rewrite_ttl_of(None) == 30,
        writes_number(text::trimmed(value@), n) ==> config::rewrite_ttl_of(Some(value)) == (if n
            <= 0xffff_ffff {
            n
        } else {
            30
        }),
        (forall|m: nat| !writes_number(text::trimmed(value@), m)) ==> config::rewrite_ttl_of(
            Some(value),
        ) == 30,
{
    let s = text::trimmed(value@);
    lemma_numbers(s, n, u32::MAX as nat);
}

proof fn lemma_numbers(s: Seq<char>, n: nat, max: nat)
    ensures
        writes_number(s, n) && n <= max ==> text::unsigned(s, max) == Some(n),
        writes_number(s, n) && n > max ==> text::unsigned(s, max) is None,
        (forall|m: nat| !writes_number(s, m)) ==> text::unsigned(s, max) is None,
{
    readings::law_numbers_read_back(s, n, max);
    readings::law_numbers_read_back(s, n, n);
    if let Some(m) = text::unsigned(s, max) {
        readings::law_numbers_read_back(s, m, max);
        assert(writes_number(s, m));
        readings::law_numbers_read_back(s, m, m + n);
        readings::law_numbers_read_back(s, n, m + n);
    }
}

/// A request asks for the metrics exactly where its second word starts with
/// `/metrics`.
pub proof fn law_metrics_request(line: Seq<char>, rest: Seq<char>, k: int)
    ensures
        text::words(line).len() < 2 ==> !http::asks_metrics(line),
        text::words(line).len() >= 2 && text::words(line)[1] == "/metrics"@ + rest
            ==> http::asks_metrics(line),
        http::asks_metrics(line) && 0 <= k < 8 ==> text::words(line).len() >= 2 && text::words(
            line,
        )[1].len() >= 8 && text::words(line)[1][k] == "/metrics"@[k],
{
    reveal_strlit("/metrics");
    if text::words(line).len() >= 2 {
        let path = text::words(line)[1];
        if path == "/metrics"@ + rest {
            assert(path.take(8) =~= "/metrics"@);
        }
        if http::asks_metrics(line) && 0 <= k < 8 {
            assert(path.take(8)[k] == path[k]);
        }
    }
}

/// A response has a status line, three headers, which tell the type, the number of
/// bytes and that the connection ends, an empty line, and the body.
pub proof fn law_response(metrics: bool, body: Seq<char>)
    ensures
        http::response(metrics, body) == "HTTP/1.1 200 OK\r\n"@ + (if metrics {
            "Content-Type: text/plain; version=0.0.4\r\n"@
        } else {
            "Content-Type: application/json\r\n"@
        }) + ("Content-Length: "@ + text::decimal(utf8::encode_utf8(body).len()) + "\r\n"@)
            + "Connection: close\r\n"@ + "\r\n"@ + body,
{
    reveal_strlit("HTTP/1.1 200 OK\r\n");
    reveal_strlit("HTTP/1.1 200 OK\r\nContent-Type: ");
    reveal_strlit("text/plain; version=0.0.4");
    reveal_strlit("application/json");
    reveal_strlit("\r\nContent-Length: ");
    reveal_strlit("\r\nConnection: close\r\n\r\n");
    reveal_strlit("Content-Type: text/plain; version=0.0.4\r\n");
    reveal_strlit("Content-Type: application/json\r\n");
    reveal_strlit("Content-Length: ");
    reveal_strlit("\r\n");
    reveal_strlit("Connection: close\r\n");
    let start = "HTTP/1.1 200 OK\r\nContent-Type: "@;
    let plain = "Content-Type: text/plain; version=0.0.4\r\n"@;
    let json = "Content-Type: application/json\r\n"@;
    let length = "\r\nContent-Length: "@;
    let close = "\r\nConnection: close\r\n\r\n"@;
    let digits = text::decimal(utf8::encode_utf8(body).len());
    assert(start + "text/plain; version=0.0.4"@ + "\r\n"@ =~= "HTTP/1.1 200 OK\r\n"@ + plain);
    assert(start + "application/json"@ + "\r\n"@ =~= "HTTP/1.1 200 OK\r\n"@ + json);
    assert(length =~= "\r\n"@ + "Content-Length: "@);
    assert(close =~= "\r\n"@ + "Connection: close\r\n"@ + "\r\n"@);
    let content = http::content_type(metrics);
    let full = start + content + length + digits + close + body;
    assert(full =~= (start + content + "\r\n"@) + ("Content-Length: "@ + digits + "\r\n"@)
        + "Connection: close\r\n"@ + "\r\n"@ + body);
}

/// Each file has a variable of its own to name it, and a place of its own where it is
/// looked for otherwise; only the counters have another place in test mode.
pub proof fn law_settings(setting: Setting, test_mode: bool)
    ensures
        setting == Setting::BlockedV4 ==> setting.variable_text() == "EVADE_BLOCKED_IPV4_FILE"@,
        setting == Setting::BlockedV4 ==> setting.default_text(test_mode) == "/etc/unbound/blocked_ips.txt"@,
        setting == Setting::BlockedV6 ==> setting.variable_text() == "EVADE_BLOCKED_IPV6_FILE"@,
        setting == Setting::BlockedV6 ==> setting.default_text(test_mode) == "/etc/unbound/blocked_ipv6.txt"@,
        setting == Setting::CfV4 ==> setting.variable_text() == "EVADE_CF_IPV4_FILE"@,
        setting == Setting::CfV4 ==> setting.default_text(test_mode) == "/etc/unbound/cloudflare_official_v4.txt"@,
        setting == Setting::CfV6 ==> setting.variable_text() == "EVADE_CF_IPV6_FILE"@,
        setting == Setting::CfV6 ==> setting.default_text(test_mode) == "/etc/unbound/cloudflare_official_v6.txt"@,
        setting == Setting::Stats ==> setting.variable_text() == "EVADE_STATS_FILE"@,
        setting == Setting::Redirects ==> setting.variable_text() == "EVADE_REDIRECTS_FILE"@,
        setting == Setting::Redirects ==> setting.default_text(test_mode) == "/run/evade-proxy/redirects.txt"@,
        setting == Setting::Stats && test_mode ==> setting.default_text(test_mode)
            == "/tmp/evade-proxy-test-stats.json"@,
        setting == Setting::Stats && !test_mode ==> setting.default_text(test_mode)
            == "/root/xpd-dns/scripts/evade_stats.json"@,
{
}

/// The metrics are served on port 5339, and on port 15339 in test mode.
pub proof fn law_metrics_ports()
    ensures
        PRODUCTION_METRICS_PORT == 5339,
        TEST_METRICS_PORT == 15339,
{
}

/// Answers change nothing but the counters: two states that are set up alike have the
/// same lists, redirects, limits and TTL, and so do the same to every answer.
pub proof fn law_set_up_alike(a: App, b: App, p: Seq<u8>, now: Timestamp)
    ensures
        a.same_setup(b) <==> a == (App { counters: a.counters, ..b }),
        a.same_setup(b) ==> a.processed(p, now) == b.processed(p, now) && a.processed_count(p, now)
            == b.processed_count(p, now),
{
}

/// Each of the two semaphores has as many permits as its own bound; and what waits is
/// what is missing of these when the semaphore tells what is left.
pub proof fn law_permits(limits: Limits, count: usize)
    ensures
        limits.as_made() <==> limits::permits_made(*limits.udp) == limits.max_udp
            && limits::permits_made(*limits.tcp) == limits.max_tcp,
        limits::told(*limits.udp, limits.max_udp, Some(count)) ==> exists|left: usize| #[trigger]
            limits::reported(*limits.udp, left) && count + left == limits.max_udp,
        limits::told(*limits.tcp, limits.max_tcp, Some(count)) ==> exists|left: usize| #[trigger]
            limits::reported(*limits.tcp, left) && count + left == limits.max_tcp,
        limits::told(*limits.udp, limits.max_udp, None) ==> exists|left: usize| #[trigger]
            limits::reported(*limits.udp, left) && left > limits.max_udp,
        limits::told(*limits.tcp, limits.max_tcp, None) ==> exists|left: usize| #[trigger]
            limits::reported(*limits.tcp, left) && left > limits.max_tcp,
{
}

} // verus!
