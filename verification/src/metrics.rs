//! The metrics page, in the text format that collectors scrape.

use crate::counters::StatsFile;
use crate::limits;
use crate::proxy::App;
use crate::text;
use crate::text::push_decimal;
use vstd::prelude::*;

verus! {

/// The numbers on the page.
#[derive(Clone, Copy, Debug, PartialEq, Eq)]
pub struct Figures {
    /// Answers in which an address was replaced.
    pub evaded_queries: u64,
    /// Addresses that were replaced.
    pub evaded_records: u64,
    /// Answers that were looked at.
    pub processed: u64,
    /// Queries dropped at the limit.
    pub dropped: Pair,
    /// Queries that wait on the upstream resolver.
    pub inflight: Pair,
    /// Queries that got no answer.
    pub failures: Pair,
    /// Blocked addresses.
    pub blocked: Pair,
    /// Blocked addresses that have a neighbour.
    pub evadable: Pair,
    /// Rewritable ranges.
    pub ranges: Pair,
    /// Temporary redirects.
    pub redirects: u64,
}

/// Two numbers of one kind: for UDP and TCP, or for IPv4 and IPv6.
#[derive(Clone, Copy, Debug, PartialEq, Eq)]
pub struct Pair {
    pub first: u64,
    pub second: u64,
}

/// The line of one sample.
pub open spec fn sample(name: Seq<char>, labels: Seq<char>, value: Seq<char>) -> Seq<char> {
    name + labels + " "@ + value + "\n"@
}

/// The two lines that introduce a metric.
pub open spec fn preamble(name: Seq<char>, kind: Seq<char>, help: Seq<char>) -> Seq<char> {
    "# HELP "@ + name + " "@ + help + "\n# TYPE "@ + name + " "@ + kind + "\n"@
}

/// A metric with one sample.
pub open spec fn single(
    name: Seq<char>,
    kind: Seq<char>,
    help: Seq<char>,
    value: Seq<char>,
) -> Seq<char> {
    preamble(name, kind, help) + sample(name, ""@, value)
}

/// A metric with two samples.
pub open spec fn double(
    name: Seq<char>,
    kind: Seq<char>,
    help: Seq<char>,
    labels: (Seq<char>, Seq<char>),
    pair: Pair,
) -> Seq<char> {
    preamble(name, kind, help) + sample(name, labels.0, text::decimal(pair.first as nat)) + sample(
        name,
        labels.1,
        text::decimal(pair.second as nat),
    )
}

/// The labels of a pair of transports.
pub open spec fn by_transport() -> (Seq<char>, Seq<char>) {
    ("{proto=\"udp\"}"@, "{proto=\"tcp\"}"@)
}

/// The labels of a pair of address families.
pub open spec fn by_family() -> (Seq<char>, Seq<char>) {
    ("{family=\"ipv4\"}"@, "{family=\"ipv6\"}"@)
}

/// The metrics of what was evaded.
pub open spec fn evasion_page(figures: Figures) -> Seq<char> {
    single(
        "xdp_evade_queries_total"@,
        "counter"@,
        "Total DNS queries rewritten for block evasion"@,
        text::decimal(figures.evaded_queries as nat),
    ) + single(
        "xdp_evade_records_total"@,
        "counter"@,
        "Total DNS records replaced for block evasion"@,
        text::decimal(figures.evaded_records as nat),
    ) + single(
        "xdp_evade_queries_processed"@,
        "counter"@,
        "Total queries processed by evasion proxy"@,
        text::decimal(figures.processed as nat),
    )
}

/// The metrics of the traffic.
pub open spec fn traffic_page(figures: Figures) -> Seq<char> {
    double(
        "xdp_evade_dropped_total"@,
        "counter"@,
        "Queries dropped because the in-flight limit was reached"@,
        by_transport(),
        figures.dropped,
    ) + double(
        "xdp_evade_inflight"@,
        "gauge"@,
        "Queries currently waiting on the upstream resolver"@,
        by_transport(),
        figures.inflight,
    ) + double(
        "xdp_evade_upstream_failures_total"@,
        "counter"@,
        "Queries that got no answer from the upstream resolver"@,
        by_transport(),
        figures.failures,
    )
}

/// The metrics of the lists. `last_reload` is the time of the last load as text.
pub open spec fn lists_page(figures: Figures, last_reload: Seq<char>) -> Seq<char> {
    double(
        "xdp_evade_blocked_ips"@,
        "gauge"@,
        "Addresses in the loaded blocklists"@,
        by_family(),
        figures.blocked,
    ) + double(
        "xdp_evade_evadable_ips"@,
        "gauge"@,
        "Blocked addresses with a free neighbour to jump to"@,
        by_family(),
        figures.evadable,
    ) + double(
        "xdp_evade_cloudflare_ranges"@,
        "gauge"@,
        "Merged Cloudflare ranges eligible for rewriting"@,
        by_family(),
        figures.ranges,
    ) + single(
        "xdp_evade_active_redirects"@,
        "gauge"@,
        "Temporary redirects set by the residential probe"@,
        text::decimal(figures.redirects as nat),
    ) + single(
        "xdp_evade_last_reload_timestamp_seconds"@,
        "gauge"@,
        "When the lists were last (re)loaded"@,
        last_reload,
    )
}

/// The whole page.
pub open spec fn page(figures: Figures, last_reload: Seq<char>) -> Seq<char> {
    evasion_page(figures) + traffic_page(figures) + lists_page(figures, last_reload)
}

fn push_preamble(out: &mut String, name: &str, kind: &str, help: &str)
    ensures
        final(out)@ == old(out)@ + preamble(name@, kind@, help@),
{
    out.append("# HELP ");
    out.append(name);
    out.append(" ");
    out.append(help);
    out.append("\n# TYPE ");
    out.append(name);
    out.append(" ");
    out.append(kind);
    out.append("\n");
    assert(out@ =~= old(out)@ + preamble(name@, kind@, help@));
}

fn push_sample(out: &mut String, name: &str, labels: &str, value: &str)
    ensures
        final(out)@ == old(out)@ + sample(name@, labels@, value@),
{
    out.append(name);
    out.append(labels);
    out.append(" ");
    out.append(value);
    out.append("\n");
    assert(out@ =~= old(out)@ + sample(name@, labels@, value@));
}

fn digits(n: u64) -> (out: String)
    ensures
        out@ == text::decimal(n as nat),
{
    let mut out: String = String::new();
    push_decimal(&mut out, n);
    assert(out@ =~= text::decimal(n as nat));
    out
}

fn push_single(out: &mut String, name: &str, kind: &str, help: &str, value: &str)
    ensures
        final(out)@ == old(out)@ + single(name@, kind@, help@, value@),
{
    push_preamble(out, name, kind, help);
    push_sample(out, name, "", value);
    assert(out@ =~= old(out)@ + single(name@, kind@, help@, value@));
}

fn push_transports(out: &mut String, name: &str, kind: &str, help: &str, pair: Pair)
    ensures
        final(out)@ == old(out)@ + double(name@, kind@, help@, by_transport(), pair),
{
    push_preamble(out, name, kind, help);
    push_sample(out, name, "{proto=\"udp\"}", digits(pair.first).as_str());
    push_sample(out, name, "{proto=\"tcp\"}", digits(pair.second).as_str());
    assert(out@ =~= old(out)@ + double(name@, kind@, help@, by_transport(), pair));
}

fn push_families(out: &mut String, name: &str, kind: &str, help: &str, pair: Pair)
    ensures
        final(out)@ == old(out)@ + double(name@, kind@, help@, by_family(), pair),
{
    push_preamble(out, name, kind, help);
    push_sample(out, name, "{family=\"ipv4\"}", digits(pair.first).as_str());
    push_sample(out, name, "{family=\"ipv6\"}", digits(pair.second).as_str());
    assert(out@ =~= old(out)@ + double(name@, kind@, help@, by_family(), pair));
}

fn push_evasion(out: &mut String, figures: &Figures)
    ensures
        final(out)@ == old(out)@ + evasion_page(*figures),
{
    push_single(
        out,
        "xdp_evade_queries_total",
        "counter",
        "Total DNS queries rewritten for block evasion",
        digits(figures.evaded_queries).as_str(),
    );
    push_single(
        out,
        "xdp_evade_records_total",
        "counter",
        "Total DNS records replaced for block evasion",
        digits(figures.evaded_records).as_str(),
    );
    push_single(
        out,
        "xdp_evade_queries_processed",
        "counter",
        "Total queries processed by evasion proxy",
        digits(figures.processed).as_str(),
    );
    assert(out@ =~= old(out)@ + evasion_page(*figures));
}

fn push_traffic(out: &mut String, figures: &Figures)
    ensures
        final(out)@ == old(out)@ + traffic_page(*figures),
{
    push_transports(
        out,
        "xdp_evade_dropped_total",
        "counter",
        "Queries dropped because the in-flight limit was reached",
        figures.dropped,
    );
    push_transports(
        out,
        "xdp_evade_inflight",
        "gauge",
        "Queries currently waiting on the upstream resolver",
        figures.inflight,
    );
    push_transports(
        out,
        "xdp_evade_upstream_failures_total",
        "counter",
        "Queries that got no answer from the upstream resolver",
        figures.failures,
    );
    assert(out@ =~= old(out)@ + traffic_page(*figures));
}

fn push_lists(out: &mut String, figures: &Figures, last_reload: &str)
    ensures
        final(out)@ == old(out)@ + lists_page(*figures, last_reload@),
{
    push_families(
        out,
        "xdp_evade_blocked_ips",
        "gauge",
        "Addresses in the loaded blocklists",
        figures.blocked,
    );
    push_families(
        out,
        "xdp_evade_evadable_ips",
        "gauge",
        "Blocked addresses with a free neighbour to jump to",
        figures.evadable,
    );
    push_families(
        out,
        "xdp_evade_cloudflare_ranges",
        "gauge",
        "Merged Cloudflare ranges eligible for rewriting",
        figures.ranges,
    );
    push_single(
        out,
        "xdp_evade_active_redirects",
        "gauge",
        "Temporary redirects set by the residential probe",
        digits(figures.redirects).as_str(),
    );
    push_single(
        out,
        "xdp_evade_last_reload_timestamp_seconds",
        "gauge",
        "When the lists were last (re)loaded",
        last_reload,
    );
    assert(out@ =~= old(out)@ + lists_page(*figures, last_reload@));
}

/// Writes the page. `last_reload` is the time of the last load as text.
pub fn metrics_text(figures: &Figures, last_reload: &str) -> (out: String)
    ensures
        out@ == page(*figures, last_reload@),
{
    let mut out: String = String::new();
    push_evasion(&mut out, figures);
    push_traffic(&mut out, figures);
    push_lists(&mut out, figures, last_reload);
    assert(out@ =~= page(*figures, last_reload@));
    out
}

/// The numbers of an `app` whose queries in flight are known.
pub open spec fn figures_of(app: App, stats: StatsFile, inflight: Pair) -> Figures {
    Figures {
        evaded_queries: stats.evaded_queries_total,
        evaded_records: stats.evaded_records_total,
        processed: stats.total_queries_processed,
        dropped: Pair { first: app.counters.dropped_udp, second: app.counters.dropped_tcp },
        inflight,
        failures: Pair {
            first: app.counters.upstream_failures_udp,
            second: app.counters.upstream_failures_tcp,
        },
        blocked: Pair {
            first: app.data.blocked_v4@.len() as u64,
            second: app.data.blocked_v6@.len() as u64,
        },
        evadable: Pair {
            first: app.data.evasion_v4@.len() as u64,
            second: app.data.evasion_v6@.len() as u64,
        },
        ranges: Pair {
            first: app.data.cf_v4@.len() as u64,
            second: app.data.cf_v6@.len() as u64,
        },
        redirects: app.temporary_redirects@.len() as u64,
    }
}

/// Gathers the numbers of the page.
pub fn figures(app: &App, stats: &StatsFile, inflight: Pair) -> (figures: Figures)
    requires
        app.wf(),
    ensures
        figures == figures_of(*app, *stats, inflight),
{
    Figures {
        evaded_queries: stats.evaded_queries_total,
        evaded_records: stats.evaded_records_total,
        processed: stats.total_queries_processed,
        dropped: Pair { first: app.counters.dropped_udp, second: app.counters.dropped_tcp },
        inflight,
        failures: Pair {
            first: app.counters.upstream_failures_udp,
            second: app.counters.upstream_failures_tcp,
        },
        blocked: Pair {
            first: app.data.blocked_v4.len() as u64,
            second: app.data.blocked_v6.len() as u64,
        },
        evadable: Pair {
            first: app.data.evasion_v4.len() as u64,
            second: app.data.evasion_v6.len() as u64,
        },
        ranges: Pair { first: app.data.cf_v4.len() as u64, second: app.data.cf_v6.len() as u64 },
        redirects: app.temporary_redirects.len() as u64,
    }
}

/// Writes the page for an `app` whose limits gave `udp` and `tcp` as the numbers
/// in flight; `None` where one of the two is not known.
pub fn metrics_page(
    app: &App,
    stats: &StatsFile,
    udp: Option<usize>,
    tcp: Option<usize>,
    last_reload: &str,
) -> (body: Option<String>)
    requires
        app.wf(),
    ensures
        match (udp, tcp) {
            (Some(udp), Some(tcp)) => {
                let inflight = Pair { first: udp as u64, second: tcp as u64 };
                body matches Some(body) && body@ == page(
                    figures_of(*app, *stats, inflight),
                    last_reload@,
                )
            },
            _ => body is None,
        },
{
    match (udp, tcp) {
        (Some(udp), Some(tcp)) => {
            let inflight = Pair { first: udp as u64, second: tcp as u64 };
            let figures: Figures = figures(app, stats, inflight);
            Some(metrics_text(&figures, last_reload))
        },
        _ => None,
    }
}

/// Writes the page for the `app` as it stands; `None` where one of its semaphores
/// reports more permits than were made. How many queries are in flight is known
/// to the semaphores alone.
pub fn metrics_body(app: &App, stats: &StatsFile, last_reload: &str) -> (body: Option<String>)
    requires
        app.wf(),
    ensures
        exists|udp: Option<usize>, tcp: Option<usize>|
            #![trigger limits::told(*app.limits.udp, app.limits.max_udp, udp), limits::told(*app.limits.tcp, app.limits.max_tcp, tcp)]
            {
                &&& limits::told(*app.limits.udp, app.limits.max_udp, udp)
                &&& limits::told(*app.limits.tcp, app.limits.max_tcp, tcp)
                &&& match (udp, tcp) {
                    (Some(udp), Some(tcp)) => {
                        let inflight = Pair { first: udp as u64, second: tcp as u64 };
                        body matches Some(body) && body@ == page(
                            figures_of(*app, *stats, inflight),
                            last_reload@,
                        )
                    },
                    _ => body is None,
                }
            },
{
    let udp: Option<usize> = app.limits.inflight_udp();
    let tcp: Option<usize> = app.limits.inflight_tcp();
    metrics_page(app, stats, udp, tcp, last_reload)
}

} // verus!
