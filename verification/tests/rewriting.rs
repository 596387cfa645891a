//! Whole answers, from the bytes that come to the bytes that go.

use evade_proxy::address::{parse_ipv6, parse_v4_prefix, parse_v6_prefix};
use evade_proxy::bytes::be16;
use evade_proxy::counters::{Counters, StatsFile};
use evade_proxy::evasion::Data;
use evade_proxy::limits::Limits;
use evade_proxy::proxy::App;
use evade_proxy::redirects::{add_redirect, Redirects, TestRedirect, Timestamp};
use evade_proxy::rewrite::{clear_ad, svcb_hint_changes, DEFAULT_REWRITE_TTL};
use evade_proxy::wire::{resource_records, skip_name};
use std::collections::HashSet;
use std::sync::Arc;

const OPT: [u8; 11] = [0, 0, 41, 4, 208, 0, 0, 0x80, 0, 0, 0];

fn at(seconds: f64) -> Timestamp {
    Timestamp { bits: seconds.to_bits() }
}

fn v6(text: &str) -> [u8; 16] {
    let chars: Vec<char> = text.chars().collect();
    parse_ipv6(&chars).unwrap().to_be_bytes()
}

fn app_with(data: Data) -> App {
    App {
        data: Arc::new(data),
        counters: Counters::default(),
        rewrite_ttl: DEFAULT_REWRITE_TTL,
        test_redirects: Redirects::new(),
        temporary_redirects: Redirects::new(),
        limits: Limits::default(),
    }
}

fn preventive_app() -> App {
    app_with(Data::new(
        HashSet::new(),
        HashSet::new(),
        vec![parse_v4_prefix("104.16.0.0/12").unwrap()],
        vec![parse_v6_prefix("2606:4700::/32").unwrap()],
    ))
}

fn answer_packet(kind: u16, ttl: u32, rdata: &[u8]) -> Vec<u8> {
    let mut packet = vec![
        0x12, 0x34, 0x81, 0xa0, 0, 1, 0, 1, 0, 0, 0, 0, 1, b'a', 3, b'c', b'o', b'm', 0,
    ];
    packet.extend(kind.to_be_bytes());
    packet.extend([0, 1, 0xc0, 0x0c]);
    packet.extend(kind.to_be_bytes());
    packet.extend([0, 1]);
    packet.extend(ttl.to_be_bytes());
    packet.extend((rdata.len() as u16).to_be_bytes());
    packet.extend(rdata);
    packet
}

// Mirrors a list reload: the neighbour map is rebuilt, not patched in place.
fn block_v4(app: &mut App, ip: [u8; 4]) {
    let mut blocked_v4 = app.data.blocked_v4.clone();
    blocked_v4.insert(u32::from_be_bytes(ip));
    app.data = Arc::new(Data::new(
        blocked_v4,
        app.data.blocked_v6.clone(),
        app.data.cf_v4.clone(),
        app.data.cf_v6.clone(),
    ));
}

fn ttl_of(packet: &[u8], index: usize) -> u32 {
    let rr = resource_records(packet).unwrap()[index];
    u32::from_be_bytes(packet[rr.ttl..rr.ttl + 4].try_into().unwrap())
}

fn redirect_app(rule: &str) -> App {
    let mut app = app_with(Data::default());
    add_redirect(&mut app.test_redirects, rule).unwrap();
    app
}

// answer_packet plus an EDNS OPT record with the DO bit.
fn with_opt(mut packet: Vec<u8>) -> Vec<u8> {
    packet[11] = 1;
    packet.extend(OPT);
    packet
}

#[test]
fn caps_unblocked_cloudflare_a_and_aaaa_without_counting_evasion() {
    let mut app = preventive_app();
    for (kind, address) in [(1, vec![104, 16, 1, 1]), (28, v6("2606:4700::1111").to_vec())] {
        let mut packet = answer_packet(kind, 300, &address);
        let mut expected = packet.clone();
        let rr = resource_records(&packet).unwrap()[0];
        expected[rr.ttl..rr.ttl + 4].copy_from_slice(&30u32.to_be_bytes());
        assert_eq!(app.rewrite(&mut packet, at(1000.0)), 0);
        assert_eq!(packet, expected); // IP, flags (including AD), and RDATA preserved.
    }
    assert_eq!(app.counters.evaded_queries, 0);
    assert_eq!(app.counters.evaded_records, 0);
    assert_eq!(app.counters.total_queries, 2);
}

#[test]
fn caps_unblocked_https_and_svcb_v4_and_v6_hints() {
    let mut app = preventive_app();
    for kind in [64, 65] {
        for (key, hint) in [
            (4u16, vec![104, 16, 1, 1]),
            (6u16, v6("2606:4700::1111").to_vec()),
        ] {
            let mut rdata = vec![0, 1, 0];
            rdata.extend(key.to_be_bytes());
            rdata.extend((hint.len() as u16).to_be_bytes());
            rdata.extend(hint);
            let mut packet = answer_packet(kind, 300, &rdata);
            assert_eq!(app.rewrite(&mut packet, at(1000.0)), 0);
            assert_eq!(ttl_of(&packet, 0), 30);
            assert!(packet.ends_with(&rdata));
        }
    }
}

#[test]
fn never_raises_ttl_even_when_rewriting() {
    let mut app = preventive_app();
    for blocked in [false, true] {
        if blocked {
            block_v4(&mut app, [104, 16, 1, 1]);
        }
        for ttl in [0u32, 1, 5, 29, 30, 31, 300] {
            let mut packet = answer_packet(1, ttl, &[104, 16, 1, 1]);
            assert_eq!(app.rewrite(&mut packet, at(1000.0)), usize::from(blocked));
            assert_eq!(ttl_of(&packet, 0), ttl.min(30));
        }
    }
}

#[test]
fn leaves_non_cloudflare_and_hintless_responses_untouched() {
    let mut app = preventive_app();
    for (kind, rdata) in [
        (1, vec![192, 0, 2, 1]),
        (28, v6("2001:db8::1").to_vec()),
        (65, vec![0, 1, 0, 0, 4, 0, 4, 192, 0, 2, 1]),
        (64, vec![0, 1, 0]),
    ] {
        let mut packet = answer_packet(kind, 300, &rdata);
        let original = packet.clone();
        assert_eq!(app.rewrite(&mut packet, at(1000.0)), 0);
        assert_eq!(packet, original);
    }
}

#[test]
fn preserves_edns_flags_and_caps_mixed_rrset_consistently() {
    let mut app = preventive_app();
    let mut packet = answer_packet(1, 300, &[104, 16, 1, 1]);
    packet[7] = 2;
    packet[11] = 1;
    let other = answer_packet(1, 300, &[192, 0, 2, 1]);
    packet.extend(&other[23..]);
    // OPT TTL field contains EDNS extended RCODE/version/flags, not a TTL.
    let opt = [0, 0, 41, 4, 208, 0, 0, 0x80, 0, 0, 0];
    packet.extend(opt);
    app.rewrite(&mut packet, at(1000.0));
    assert_eq!(ttl_of(&packet, 0), 30);
    assert_eq!(ttl_of(&packet, 1), 30);
    assert!(packet.ends_with(&opt));
}

#[test]
fn newly_blocked_address_is_rewritten_from_same_upstream_cached_answer() {
    let mut app = preventive_app();
    let original = answer_packet(1, 3600, &[104, 16, 1, 1]);
    let mut before = original.clone();
    assert_eq!(app.rewrite(&mut before, at(1000.0)), 0);
    assert_eq!(ttl_of(&before, 0), 30);
    block_v4(&mut app, [104, 16, 1, 1]);
    let mut after = original;
    assert_eq!(app.rewrite(&mut after, at(1000.0)), 1);
    assert_eq!(ttl_of(&after, 0), 30);
    assert!(after.ends_with(&[104, 16, 1, 2]));
}

#[test]
fn malformed_packets_do_not_panic_or_change() {
    let mut app = preventive_app();
    let packet = answer_packet(65, 300, &[0, 1, 0, 0, 4, 0, 4, 104, 16, 1, 1]);
    for length in 0..packet.len() {
        let mut truncated = packet[..length].to_vec();
        let original = truncated.clone();
        assert_eq!(app.rewrite(&mut truncated, at(1000.0)), 0);
        assert_eq!(truncated, original);
    }
}

#[test]
fn rewrites_a_in_place_and_sets_ttl() {
    let mut packet = vec![
        0x12, 0x34, 0x81, 0x80, 0, 1, 0, 1, 0, 0, 0, 0, 1, b'a', 3, b'c', b'o', b'm', 0, 0, 1, 0, 1,
        0xc0, 0x0c, 0, 1, 0, 1, 0, 0, 1, 0x2c, 0, 4, 104, 16, 1, 1,
    ];
    let data = Data::new(
        HashSet::from([u32::from_be_bytes([104, 16, 1, 1])]),
        HashSet::new(),
        vec![(
            u32::from_be_bytes([104, 16, 0, 0]),
            u32::from_be_bytes([104, 16, 255, 255]),
        )],
        Vec::new(),
    );
    let mut app = app_with(data);
    assert_eq!(app.rewrite(&mut packet, at(1000.0)), 1);
    assert_eq!(&packet[packet.len() - 4..], &[104, 16, 1, 2]);
    assert_eq!(
        &packet[packet.len() - 10..packet.len() - 6],
        &DEFAULT_REWRITE_TTL.to_be_bytes()
    );
}

#[test]
fn rewrites_https_ipv4hint_and_sets_ttl() {
    // HTTPS (type 65) answer for a.com carrying ipv4hint=104.16.1.1.
    // RDATA: priority(0001) target(00) key4(0004) len(0004) hint(104.16.1.1)
    let mut packet = vec![
        0x12, 0x34, 0x81, 0x80, 0, 1, 0, 1, 0, 0, 0, 0, // header
        1, b'a', 3, b'c', b'o', b'm', 0, 0, 65, 0, 1, // question a.com HTTPS IN
        0xc0, 0x0c, 0, 65, 0, 1, 0, 0, 1, 0x2c, // answer name/type/class/ttl
        0, 11, // rdlen = 11
        0, 1, 0, 0, 4, 0, 4, 104, 16, 1, 1, // rdata
    ];
    let ttl_at = 29;
    let hint_at = packet.len() - 4;
    let data = Data::new(
        HashSet::from([u32::from_be_bytes([104, 16, 1, 1])]),
        HashSet::new(),
        vec![(
            u32::from_be_bytes([104, 16, 0, 0]),
            u32::from_be_bytes([104, 16, 255, 255]),
        )],
        Vec::new(),
    );
    let mut app = app_with(data);
    assert_eq!(app.rewrite(&mut packet, at(1000.0)), 1);
    assert_eq!(&packet[hint_at..hint_at + 4], &[104, 16, 1, 2]);
    assert_eq!(
        &packet[ttl_at..ttl_at + 4],
        &DEFAULT_REWRITE_TTL.to_be_bytes()
    );
}

#[test]
fn test_mode_redirects_only_matching_question() {
    let original = [104, 16, 1, 1];
    let mut packet = vec![
        0x12, 0x34, 0x81, 0x80, 0, 1, 0, 1, 0, 0, 0, 0, 1, b'a', 3, b'c', b'o', b'm', 0, 0, 1, 0, 1,
        0xc0, 0x0c, 0, 1, 0, 1, 0, 0, 1, 0x2c, 0, 4, original[0], original[1], original[2],
        original[3],
    ];
    let mut app = redirect_app("a.com=203.0.113.7");
    let mut other = redirect_app("b.com=203.0.113.7");
    let mut untouched = packet.clone();
    assert_eq!(app.rewrite(&mut packet, at(1000.0)), 1);
    assert_eq!(&packet[packet.len() - 4..], &[203, 0, 113, 7]);
    let before = untouched.clone();
    assert_eq!(other.rewrite(&mut untouched, at(1000.0)), 0);
    assert_eq!(untouched, before);
}

#[test]
fn clears_ad_flag_only_when_an_address_is_rewritten() {
    let mut app = preventive_app();
    // answer_packet sets AD (flags 0x81a0).
    let mut untouched = answer_packet(1, 300, &[104, 16, 1, 1]);
    app.rewrite(&mut untouched, at(1000.0));
    assert_eq!(untouched[3] & 0x20, 0x20);

    block_v4(&mut app, [104, 16, 1, 1]);
    let mut rewritten = answer_packet(1, 300, &[104, 16, 1, 1]);
    assert_eq!(app.rewrite(&mut rewritten, at(1000.0)), 1);
    assert_eq!(rewritten[3] & 0x20, 0);
}

#[test]
fn v4_only_redirect_empties_aaaa_and_https_but_keeps_opt() {
    let mut app = redirect_app("a.com=203.0.113.7");
    let v6 = v6("2606:4700::1");
    let https = [0, 1, 0, 0, 6, 0, 16]
        .iter()
        .copied()
        .chain(v6)
        .collect::<Vec<_>>();
    for (kind, rdata) in [(28u16, v6.to_vec()), (65, https)] {
        let original = with_opt(answer_packet(kind, 300, &rdata));
        let mut packet = original.clone();
        assert_eq!(app.process(&mut packet, at(1000.0)), 1);
        let question_end = skip_name(&packet, 12).unwrap() + 4;
        assert_eq!(&packet[..2], &original[..2]); // same ID
        assert_eq!(be16(&packet, 6), Some(0)); // no answers
        assert_eq!(be16(&packet, 10), Some(1)); // OPT kept
        assert_eq!(packet[3] & 0x20, 0); // AD cleared
        assert_eq!(
            &packet[question_end..],
            &[0, 0, 41, 4, 208, 0, 0, 0x80, 0, 0, 0]
        );
    }
}

#[test]
fn v4_only_redirect_still_rewrites_a() {
    let mut app = redirect_app("a.com=203.0.113.7");
    let mut packet = with_opt(answer_packet(1, 300, &[104, 16, 1, 1]));
    assert_eq!(app.process(&mut packet, at(1000.0)), 1);
    assert_eq!(be16(&packet, 6), Some(1));
    let rr = resource_records(&packet).unwrap()[0];
    assert_eq!(&packet[rr.rdata..rr.rdata + 4], &[203, 0, 113, 7]);
}

#[test]
fn aaaa_is_kept_without_redirect_or_with_an_ipv6_redirect() {
    let address = v6("2606:4700::1");
    let mut plain = redirect_app("a.com=203.0.113.7");
    plain.test_redirects = Redirects::new();
    let mut packet = with_opt(answer_packet(28, 300, &address));
    plain.process(&mut packet, at(1000.0));
    assert_eq!(be16(&packet, 6), Some(1));

    let mut dual = redirect_app("a.com=203.0.113.7");
    add_redirect(&mut dual.test_redirects, "a.com=2001:db8::7").unwrap();
    let mut packet = with_opt(answer_packet(28, 300, &address));
    assert_eq!(dual.process(&mut packet, at(1000.0)), 1);
    assert_eq!(be16(&packet, 6), Some(1));
    let rr = resource_records(&packet).unwrap()[0];
    assert_eq!(&packet[rr.rdata..rr.rdata + 16], &v6("2001:db8::7"));
}

#[test]
fn rewriting_counts_addresses_and_notes_the_time() {
    let mut app = preventive_app();
    block_v4(&mut app, [104, 16, 1, 1]);
    let mut rdata = vec![0, 1, 0, 0, 4, 0, 8];
    rdata.extend([104, 16, 1, 1, 104, 16, 1, 1]);
    let mut packet = answer_packet(65, 300, &rdata);
    assert_eq!(app.process(&mut packet, at(1234.5)), 2);
    assert!(packet.ends_with(&[104, 16, 1, 2, 104, 16, 1, 2]));
    assert_eq!(app.counters.evaded_queries, 1);
    assert_eq!(app.counters.evaded_records, 2);
    assert_eq!(app.counters.total_queries, 1);
    assert_eq!(app.counters.last_evaded.bits, 1234.5f64.to_bits());
    let stats = app.counters.snapshot(at(2000.0));
    assert_eq!(stats.evaded_records_total, 2);
    assert_eq!(stats.last_updated.bits, 2000.0f64.to_bits());
    let again = Counters::load(&stats);
    assert_eq!(again.evaded_queries, 1);
    assert_eq!(again.last_reload.bits, 0);
}

#[test]
fn emptying_counts_the_answers_that_were_taken_out() {
    let mut app = redirect_app("a.com=203.0.113.7");
    let mut packet = answer_packet(64, 300, &[0, 1, 0]);
    assert_eq!(app.suppress_unverified_family(&mut packet, at(7.0)), Some(1));
    assert_eq!(packet.len(), 23);
    assert_eq!(app.counters.evaded_queries, 1);
    assert_eq!(app.counters.evaded_records, 1);
    assert_eq!(app.counters.total_queries, 1);
    assert_eq!(app.counters.last_evaded.bits, 7.0f64.to_bits());
}

#[test]
fn failures_and_empty_answers_are_not_emptied() {
    let mut app = redirect_app("a.com=203.0.113.7");
    let mut refused = answer_packet(28, 300, &v6("2606:4700::1"));
    refused[3] = 0x85;
    let before = refused.clone();
    assert_eq!(app.suppress_unverified_family(&mut refused, at(7.0)), None);
    assert_eq!(refused, before);
    let mut empty = answer_packet(28, 300, &[])[..23].to_vec();
    empty[7] = 0;
    let before = empty.clone();
    assert_eq!(app.suppress_unverified_family(&mut empty, at(7.0)), None);
    assert_eq!(app.process(&mut empty, at(7.0)), 0);
    assert_eq!(empty, before);
    assert_eq!(app.counters.total_queries, 1);
}

#[test]
fn expired_redirects_are_inert_and_hide_others() {
    let mut app = app_with(Data::default());
    let pinned = |v4: u32, expires: Option<Timestamp>| TestRedirect {
        v4: Some(v4),
        v6: None,
        expires_at: expires,
    };
    app.temporary_redirects
        .set("a.com".to_string(), pinned(1, Some(at(1000.0))));
    let packet = answer_packet(1, 300, &[192, 0, 2, 1]);
    assert_eq!(app.active_redirect(&packet, at(999.0)).unwrap().v4, Some(1));
    assert!(app.active_redirect(&packet, at(1000.0)).is_none());
    assert!(app.active_redirect(&packet, at(f64::NAN)).is_none());
    app.test_redirects
        .set("a.com".to_string(), pinned(2, Some(at(500.0))));
    assert!(app.active_redirect(&packet, at(999.0)).is_none());
    app.test_redirects.set("a.com".to_string(), pinned(3, None));
    assert_eq!(app.active_redirect(&packet, at(999.0)).unwrap().v4, Some(3));
}

#[test]
fn redirects_leave_other_sections_alone() {
    let mut app = redirect_app("a.com=203.0.113.7");
    let mut packet = answer_packet(1, 300, &[192, 0, 2, 1]);
    packet[7] = 0;
    packet[11] = 1;
    let before = packet.clone();
    assert_eq!(app.rewrite(&mut packet, at(7.0)), 0);
    assert_eq!(packet, before);
}

#[test]
fn redirected_answer_outside_the_ranges_takes_the_rewrite_ttl() {
    let mut app = redirect_app("a.com=203.0.113.7");
    app.rewrite_ttl = 45;
    let mut packet = answer_packet(1, 300, &[192, 0, 2, 1]);
    assert_eq!(app.rewrite(&mut packet, at(7.0)), 1);
    assert_eq!(ttl_of(&packet, 0), 45);
    // Inside the ranges the cap of the ranges holds as well.
    let mut inside = preventive_app();
    inside.rewrite_ttl = 45;
    block_v4(&mut inside, [104, 16, 1, 1]);
    let mut packet = answer_packet(1, 300, &[104, 16, 1, 1]);
    assert_eq!(inside.rewrite(&mut packet, at(7.0)), 1);
    assert_eq!(ttl_of(&packet, 0), 30);
    inside.rewrite_ttl = 0;
    let mut packet = answer_packet(1, 300, &[104, 16, 1, 1]);
    assert_eq!(inside.rewrite(&mut packet, at(7.0)), 1);
    assert_eq!(ttl_of(&packet, 0), 0);
}

#[test]
fn only_addresses_ttls_and_one_flag_change() {
    let mut app = preventive_app();
    block_v4(&mut app, [104, 16, 1, 1]);
    let before = with_opt(answer_packet(1, 300, &[104, 16, 1, 1]));
    let mut after = before.clone();
    assert_eq!(app.rewrite(&mut after, at(7.0)), 1);
    let changed: Vec<usize> = (0..before.len()).filter(|&k| before[k] != after[k]).collect();
    // The flag byte, the two low bytes of the TTL, the last byte of the address.
    assert_eq!(changed, vec![3, 31, 32, 38]);
    let old = resource_records(&before).unwrap();
    let new = resource_records(&after).unwrap();
    assert_eq!(old, new);
}

#[test]
fn a_second_pass_changes_nothing() {
    let mut app = preventive_app();
    block_v4(&mut app, [104, 16, 1, 1]);
    let mut packet = answer_packet(1, 300, &[104, 16, 1, 1]);
    assert_eq!(app.rewrite(&mut packet, at(7.0)), 1);
    let once = packet.clone();
    assert_eq!(app.rewrite(&mut packet, at(7.0)), 0);
    assert_eq!(packet, once);
}

#[test]
fn blocked_addresses_outside_the_ranges_stay() {
    let mut app = preventive_app();
    block_v4(&mut app, [192, 0, 2, 1]);
    let mut packet = answer_packet(1, 300, &[192, 0, 2, 1]);
    let before = packet.clone();
    assert_eq!(app.rewrite(&mut packet, at(7.0)), 0);
    assert_eq!(packet, before);
}

#[test]
fn hints_are_read_past_other_parameters_and_up_to_a_broken_one() {
    let mut app = preventive_app();
    block_v4(&mut app, [104, 16, 1, 1]);
    // alpn, then a hint of one address and two odd bytes, then a parameter that
    // runs over the end.
    let rdata = [
        0, 1, 1, b'x', 0, 0, 1, 0, 3, 2, b'h', b'2', 0, 4, 0, 6, 104, 16, 1, 1, 9, 9, 0, 4, 0, 9, 1,
    ];
    let packet = answer_packet(65, 300, &rdata);
    let rr = resource_records(&packet).unwrap()[0];
    let mut seen = false;
    let changes = svcb_hint_changes(&packet, &rr, &app.data, None, &mut seen);
    assert!(seen);
    assert_eq!(changes, vec![(rr.rdata + 16, vec![104, 16, 1, 2])]);
    let mut seen = false;
    let compressed = answer_packet(65, 300, &[0, 1, 0xc0, 0x0c, 0, 4, 0, 4, 104, 16, 1, 1]);
    let rr = resource_records(&compressed).unwrap()[0];
    assert!(svcb_hint_changes(&compressed, &rr, &app.data, None, &mut seen).is_empty());
    assert!(!seen);
}

#[test]
fn the_validated_flag_is_one_bit() {
    assert_eq!(clear_ad(0xa0), 0x80);
    assert_eq!(clear_ad(0x80), 0x80);
    assert_eq!(clear_ad(0xff), 0xdf);
}

#[test]
fn an_app_starts_with_what_was_left() {
    let stats = StatsFile {
        evaded_queries_total: 3,
        evaded_records_total: 5,
        total_queries_processed: 9,
        last_evasion_timestamp: at(11.0),
        last_updated: at(12.0),
    };
    let app = App::new(
        Data::default(),
        &stats,
        17,
        Redirects::new(),
        Redirects::new(),
        Limits::default(),
        at(20.0),
    );
    assert_eq!(app.counters.evaded_queries, 3);
    assert_eq!(app.counters.evaded_records, 5);
    assert_eq!(app.counters.total_queries, 9);
    assert_eq!(app.counters.last_evaded.bits, 11.0f64.to_bits());
    assert_eq!(app.counters.last_reload.bits, 20.0f64.to_bits());
    assert_eq!(app.rewrite_ttl, 17);
}
