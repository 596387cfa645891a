//! Frames, names, records, the metrics page and what surrounds it.

use evade_proxy::bytes::{be16, overwrite_at, read_be, write_be};
use evade_proxy::counters::{Counters, StatsFile};
use evade_proxy::evasion::Data;
use evade_proxy::exchange::{after_attempt, Attempt, Verdict};
use evade_proxy::http::{ends_headers, http_response, wants_metrics};
use evade_proxy::limits::Limits;
use evade_proxy::metrics::{figures, metrics_body, metrics_page, metrics_text, Figures, Pair};
use evade_proxy::proxy::App;
use evade_proxy::redirects::{add_redirect, Redirects, Timestamp};
use evade_proxy::wire::{decode_name, question_name, resource_records, skip_name, tcp_frame, Record};
use std::sync::Arc;

const PAGE: &str = "# HELP xdp_evade_queries_total Total DNS queries rewritten for block evasion
# TYPE xdp_evade_queries_total counter
xdp_evade_queries_total 1
# HELP xdp_evade_records_total Total DNS records replaced for block evasion
# TYPE xdp_evade_records_total counter
xdp_evade_records_total 20
# HELP xdp_evade_queries_processed Total queries processed by evasion proxy
# TYPE xdp_evade_queries_processed counter
xdp_evade_queries_processed 18446744073709551615
# HELP xdp_evade_dropped_total Queries dropped because the in-flight limit was reached
# TYPE xdp_evade_dropped_total counter
xdp_evade_dropped_total{proto=\"udp\"} 3
xdp_evade_dropped_total{proto=\"tcp\"} 4
# HELP xdp_evade_inflight Queries currently waiting on the upstream resolver
# TYPE xdp_evade_inflight gauge
xdp_evade_inflight{proto=\"udp\"} 5
xdp_evade_inflight{proto=\"tcp\"} 6
# HELP xdp_evade_upstream_failures_total Queries that got no answer from the upstream resolver
# TYPE xdp_evade_upstream_failures_total counter
xdp_evade_upstream_failures_total{proto=\"udp\"} 7
xdp_evade_upstream_failures_total{proto=\"tcp\"} 8
# HELP xdp_evade_blocked_ips Addresses in the loaded blocklists
# TYPE xdp_evade_blocked_ips gauge
xdp_evade_blocked_ips{family=\"ipv4\"} 9
xdp_evade_blocked_ips{family=\"ipv6\"} 10
# HELP xdp_evade_evadable_ips Blocked addresses with a free neighbour to jump to
# TYPE xdp_evade_evadable_ips gauge
xdp_evade_evadable_ips{family=\"ipv4\"} 11
xdp_evade_evadable_ips{family=\"ipv6\"} 12
# HELP xdp_evade_cloudflare_ranges Merged Cloudflare ranges eligible for rewriting
# TYPE xdp_evade_cloudflare_ranges gauge
xdp_evade_cloudflare_ranges{family=\"ipv4\"} 13
xdp_evade_cloudflare_ranges{family=\"ipv6\"} 14
# HELP xdp_evade_active_redirects Temporary redirects set by the residential probe
# TYPE xdp_evade_active_redirects gauge
xdp_evade_active_redirects 0
# HELP xdp_evade_last_reload_timestamp_seconds When the lists were last (re)loaded
# TYPE xdp_evade_last_reload_timestamp_seconds gauge
xdp_evade_last_reload_timestamp_seconds 1787609000
";

fn app() -> App {
    App {
        data: Arc::new(Data::default()),
        counters: Counters::default(),
        rewrite_ttl: 30,
        test_redirects: Redirects::new(),
        temporary_redirects: Redirects::new(),
        limits: Limits::default(),
    }
}

#[test]
fn the_metrics_page() {
    let figures = Figures {
        evaded_queries: 1,
        evaded_records: 20,
        processed: u64::MAX,
        dropped: Pair { first: 3, second: 4 },
        inflight: Pair { first: 5, second: 6 },
        failures: Pair { first: 7, second: 8 },
        blocked: Pair { first: 9, second: 10 },
        evadable: Pair { first: 11, second: 12 },
        ranges: Pair { first: 13, second: 14 },
        redirects: 0,
    };
    assert_eq!(metrics_text(&figures, "1787609000"), PAGE);
}

#[test]
fn the_figures_of_an_app() {
    let mut app = app();
    app.data = Arc::new(Data::load(
        Some("104.16.1.1\n1.1.1.1\n"),
        Some("2606:4700::1"),
        Some("104.16.0.0/12\n1.0.0.0/32\n"),
        Some("2606:4700::/32"),
        None,
    ));
    add_redirect(&mut app.temporary_redirects, "a.com=1.2.3.4").unwrap();
    app.counters.record_dropped_udp();
    app.counters.record_dropped_tcp();
    app.counters.record_dropped_tcp();
    app.counters.record_failure_udp();
    app.counters.record_failure_udp();
    app.counters.record_failure_udp();
    app.counters.record_failure_tcp();
    let zero = Timestamp { bits: 0 };
    let stats = StatsFile {
        evaded_queries_total: 31,
        evaded_records_total: 32,
        total_queries_processed: 33,
        last_evasion_timestamp: zero,
        last_updated: zero,
    };
    let inflight = Pair { first: 1, second: 0 };
    let expected = Figures {
        evaded_queries: 31,
        evaded_records: 32,
        processed: 33,
        dropped: Pair { first: 1, second: 2 },
        inflight,
        failures: Pair { first: 3, second: 1 },
        blocked: Pair { first: 2, second: 1 },
        evadable: Pair { first: 1, second: 1 },
        ranges: Pair { first: 2, second: 1 },
        redirects: 1,
    };
    assert_eq!(figures(&app, &stats, inflight), expected);
    assert_eq!(
        metrics_page(&app, &stats, Some(1), Some(0), "7"),
        Some(metrics_text(&expected, "7"))
    );
    assert_eq!(metrics_page(&app, &stats, None, Some(0), "7"), None);
    assert_eq!(metrics_page(&app, &stats, Some(1), None, "7"), None);
    let _slot = app.limits.udp.clone().try_acquire_owned().unwrap();
    assert_eq!(metrics_body(&app, &stats, "7"), Some(metrics_text(&expected, "7")));
    app.limits.tcp.add_permits(1);
    assert_eq!(metrics_body(&app, &stats, "7"), None);
}

#[test]
fn counters_wrap_round() {
    let mut counters = Counters::default();
    counters.total_queries = u64::MAX;
    counters.evaded_records = u64::MAX;
    counters.record_seen();
    counters.record_evaded(3, Timestamp { bits: 9 });
    assert_eq!((counters.total_queries, counters.evaded_records), (0, 2));
    assert_eq!((counters.evaded_queries, counters.last_evaded.bits), (1, 9));
}

#[test]
fn http_requests_and_responses() {
    assert!(wants_metrics("GET /metrics HTTP/1.1\r\n"));
    assert!(wants_metrics("GET\t/metrics?x=1"));
    assert!(!wants_metrics("GET / HTTP/1.1\r\n"));
    assert!(!wants_metrics("GET /metric HTTP/1.1\r\n"));
    assert!(!wants_metrics("/metrics"));
    assert!(!wants_metrics(""));
    assert!(ends_headers(0, "x"));
    assert!(ends_headers(2, "\r\n"));
    assert!(ends_headers(1, "\n"));
    assert!(!ends_headers(9, "Host: a\r\n"));
    assert_eq!(
        http_response(true, "caf\u{e9}"),
        "HTTP/1.1 200 OK\r\nContent-Type: text/plain; version=0.0.4\r\nContent-Length: 5\r\n\
         Connection: close\r\n\r\ncaf\u{e9}"
    );
    assert_eq!(
        http_response(false, ""),
        "HTTP/1.1 200 OK\r\nContent-Type: application/json\r\nContent-Length: 0\r\n\
         Connection: close\r\n\r\n"
    );
}

#[test]
fn a_query_is_tried_at_most_twice() {
    assert_eq!(after_attempt(true, Attempt::Answered), (Verdict::Deliver, true));
    assert_eq!(after_attempt(true, Attempt::Broken), (Verdict::Retry, false));
    assert_eq!(after_attempt(true, Attempt::TimedOut), (Verdict::GiveUp, false));
    assert_eq!(after_attempt(false, Attempt::Answered), (Verdict::Deliver, true));
    assert_eq!(after_attempt(false, Attempt::Broken), (Verdict::GiveUp, false));
    assert_eq!(after_attempt(false, Attempt::TimedOut), (Verdict::GiveUp, false));
}

#[test]
fn frames_carry_their_length() {
    assert_eq!(tcp_frame(&[7, 8, 9]), vec![0, 3, 7, 8, 9]);
    assert_eq!(tcp_frame(&[]), vec![0, 0]);
    let long = vec![1u8; 0x1_0002];
    assert_eq!(&tcp_frame(&long)[..3], &[0, 2, 1]);
    let full = vec![1u8; 0xffff];
    let frame = tcp_frame(&full);
    assert_eq!(be16(&frame, 0), Some(0xffff));
    assert_eq!(&frame[2..], &full[..]);
}

#[test]
fn numbers_in_bytes() {
    assert_eq!(be16(&[1, 2, 3], 1), Some(0x0203));
    assert_eq!(be16(&[1, 2, 3], 2), None);
    assert_eq!(be16(&[], usize::MAX), None);
    assert_eq!(read_be(&[9, 1, 0, 255], 1, 3), 0x1_00ff);
    assert_eq!(write_be(0x1_02ff, 2), vec![2, 255]);
    assert_eq!(write_be(u128::MAX, 16), vec![255; 16]);
    let mut bytes = vec![1, 2, 3, 4];
    overwrite_at(&mut bytes, 1, &vec![8, 9]);
    assert_eq!(bytes, vec![1, 8, 9, 4]);
}

#[test]
fn names_end_at_a_zero_or_a_pointer() {
    assert_eq!(skip_name(&[1, b'a', 0, 9], 0), Some(3));
    assert_eq!(skip_name(&[1, b'a', 0xc0, 0], 0), Some(4));
    assert_eq!(skip_name(&[1, b'a', 0xc0], 0), None);
    assert_eq!(skip_name(&[1, b'a'], 0), None);
    assert_eq!(skip_name(&[0x40, 0], 0), None);
    assert_eq!(skip_name(&[2, b'a'], 0), None);
    assert_eq!(skip_name(&[0], 1), None);
}

#[test]
fn names_are_decoded_in_lower_case_through_pointers() {
    let packet = [3, b'C', b'O', b'm', 0, 1, b'A', 0xc0, 0, 0xc0, 9];
    assert_eq!(decode_name(&packet, 5), Some(("a.com".to_string(), 9)));
    assert_eq!(decode_name(&packet, 4), Some((String::new(), 5)));
    // A pointer to itself is followed for a while only.
    assert_eq!(decode_name(&packet, 9), None);
    assert_eq!(decode_name(&[2, 0xff, 0xfe, 0], 0), None);
    assert_eq!(decode_name(&[2, 0xc3, 0xa9, 0], 0), Some(("\u{e9}".to_string(), 4)));
    // A chain of pointers that is as long as allowed, and one that is not.
    let mut chain = vec![0u8];
    let mut last = 0usize;
    for _ in 0..129 {
        let here = chain.len();
        chain.extend([0xc0 | (last >> 8) as u8, last as u8]);
        last = here;
    }
    assert_eq!(decode_name(&chain, last), None);
    assert_eq!(decode_name(&chain, last - 2), Some((String::new(), last)));
}

#[test]
fn the_first_question_names_the_message() {
    let mut packet = vec![0u8; 12];
    packet.extend([1, b'X', 2, b'e', b's', 0, 0, 1, 0, 1]);
    assert_eq!(question_name(&packet), None);
    packet[5] = 1;
    assert_eq!(question_name(&packet), Some("x.es".to_string()));
    assert_eq!(question_name(&packet[..5]), None);
}

#[test]
fn the_asked_name_ignores_the_case_of_its_letters() {
    let mut packet = vec![0, 0, 0, 0, 0, 1, 0, 0, 0, 0, 0, 0];
    packet.extend([4, b'a', b'Z', 0xc3, 0x89, 2, b'e', b'S', 0, 0, 1, 0, 1]);
    let mut other = packet.clone();
    for k in [13, 14, 18, 19] {
        other[k] ^= 0x20;
    }
    assert_eq!(question_name(&packet), Some("az\u{c9}.es".to_string()));
    assert_eq!(question_name(&other), question_name(&packet));
}

#[test]
fn records_know_their_places() {
    let mut packet = vec![0, 0, 0, 0, 0, 1, 0, 1, 0, 1, 0, 0, 0, 0, 1, 0, 1];
    packet.extend([0xc0, 12, 0, 1, 0, 1, 0, 0, 0, 9, 0, 4, 1, 2, 3, 4]);
    packet.extend([0, 0, 2, 0, 1, 0, 0, 0, 9, 0, 0]);
    let records = resource_records(&packet).unwrap();
    assert_eq!(
        records,
        vec![
            Record { start: 17, kind: 1, ttl: 23, rdlen: 4, rdata: 29, answer: true },
            Record { start: 33, kind: 2, ttl: 38, rdlen: 0, rdata: 44, answer: false },
        ]
    );
    for length in 0..packet.len() {
        assert!(resource_records(&packet[..length]).is_none(), "{length}");
    }
    packet.push(0);
    assert_eq!(resource_records(&packet).unwrap().len(), 2);
}
