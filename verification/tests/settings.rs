//! The command line, the environment, redirects and limits.

use evade_proxy::config::{rewrite_ttl_value, Command, RuntimeConfig, Setting};
use evade_proxy::evasion::Data;
use evade_proxy::counters::Counters;
use evade_proxy::limits::{in_flight, limit_value, permits_out, Limits};
use evade_proxy::maintenance::{ListStamps, Maintenance, Stamp};
use evade_proxy::proxy::App;
use evade_proxy::redirects::{
    add_redirect, expiry_texts, normalize_domain, parse_temporary_redirects, ErrorKind, LineOutcome,
    Redirects, TestRedirect, Timestamp,
};
use std::sync::Arc;

fn at(seconds: f64) -> Timestamp {
    Timestamp { bits: seconds.to_bits() }
}

fn expiries(text: &str) -> Vec<Option<Timestamp>> {
    expiry_texts(text)
        .iter()
        .map(|field| field.as_ref().and_then(|f| f.parse::<f64>().ok()).map(at))
        .collect()
}

fn parse(words: &[&str]) -> Result<Command, (ErrorKind, String)> {
    let args: Vec<String> = words.iter().map(|w| w.to_string()).collect();
    RuntimeConfig::parse(&args).map_err(|e| (e.kind, e.text))
}

fn run(words: &[&str]) -> RuntimeConfig {
    match parse(words) {
        Ok(Command::Run(config)) => config,
        _ => panic!("no run: {words:?}"),
    }
}

fn fault(words: &[&str]) -> (ErrorKind, String) {
    match parse(words) {
        Err(fault) => fault,
        _ => panic!("no fault: {words:?}"),
    }
}

fn redirect(table: &Redirects, name: &str) -> Option<TestRedirect> {
    table.get(&name.to_string())
}

#[test]
fn temporary_redirects_require_a_future_expiry() {
    let text = "expired.example=192.0.2.1 999\nactive.example=192.0.2.2 1001\n";
    let (rules, _) = parse_temporary_redirects(text, &expiries(text), at(1000.0));
    assert!(redirect(&rules, "expired.example").is_none());
    let active = redirect(&rules, "active.example").unwrap();
    assert_eq!(active.v4, Some(u32::from_be_bytes([192, 0, 2, 2])));
    assert_eq!(active.expires_at.unwrap().bits, 1001.0f64.to_bits());
}

#[test]
fn every_kind_of_temporary_line() {
    let text = "\n# comment\na.com=1.2.3.4\na.com=1.2.3.4 9 9\na.com=1.2.3.4 soon\nb.com=1.2.3.4 5\n\
                c.com 99\n..=1.2.3.4 99\nd.com=nowhere 99\n  E.com.=1.2.3.4\t99.5 \r\nE.com=::7 77";
    let (rules, outcomes) = parse_temporary_redirects(text, &expiries(text), at(50.0));
    assert_eq!(
        outcomes,
        vec![
            LineOutcome::Blank,
            LineOutcome::Blank,
            LineOutcome::MissingExpiry,
            LineOutcome::ExtraFields,
            LineOutcome::BadExpiry,
            LineOutcome::Expired,
            LineOutcome::Refused(ErrorKind::InvalidRedirect),
            LineOutcome::Refused(ErrorKind::InvalidDomain),
            LineOutcome::Refused(ErrorKind::InvalidAddress),
            LineOutcome::Added,
            LineOutcome::Added,
        ]
    );
    // The last expiry holds for the whole entry.
    let both = redirect(&rules, "e.com").unwrap();
    assert_eq!((both.v4, both.v6), (Some(0x0102_0304), Some(7)));
    assert_eq!(both.expires_at.unwrap().bits, 77.0f64.to_bits());
    // A refused address leaves an entry that pins nothing.
    let idle = redirect(&rules, "d.com").unwrap();
    assert!(idle.v4.is_none() && idle.v6.is_none() && idle.expires_at.is_none());
    assert_eq!(rules.len(), 2);
}

#[test]
fn lines_that_are_passed_over_change_nothing() {
    let with = "# head\na.com=1.2.3.4 99\n\nb.com=::1\na.com=x 98\nc.com=::1 1\na.com=::2 97 # x\n\
                a.com=::3 soon\na.com=::4 96\n";
    let without = "a.com=1.2.3.4 99\na.com=x 98\na.com=::4 96";
    let (a, _) = parse_temporary_redirects(with, &expiries(with), at(50.0));
    let (b, _) = parse_temporary_redirects(without, &expiries(without), at(50.0));
    assert!(a.is_equal(&b));
    let only = redirect(&a, "a.com").unwrap();
    assert_eq!((only.v4, only.v6), (Some(0x0102_0304), Some(4)));
    assert_eq!(only.expires_at.unwrap().bits, 96.0f64.to_bits());
    assert_eq!(a.len(), 1);
    let nothing = "# a\nb.com=::1";
    let (c, _) = parse_temporary_redirects(nothing, &expiries(nothing), at(50.0));
    let (d, _) = parse_temporary_redirects("", &expiries(""), at(50.0));
    assert!(c.is_empty() && d.is_empty());
}

#[test]
fn an_expiry_that_is_no_number_never_takes_effect() {
    let text = "a.com=1.2.3.4 nan";
    let (rules, outcomes) = parse_temporary_redirects(text, &expiries(text), at(50.0));
    assert_eq!(outcomes, vec![LineOutcome::Added]);
    assert!(!redirect(&rules, "a.com").unwrap().is_live(at(0.0)));
    // It is not equal to itself, as numbers go.
    assert!(!rules.is_equal(&rules));
}

#[test]
fn timestamps_order_like_doubles() {
    let values = [
        f64::NEG_INFINITY, -2.5, -0.0, 0.0, 1e-310, 1.0, 1.5, 1e300, f64::INFINITY, f64::NAN,
    ];
    for a in values {
        for b in values {
            assert_eq!(at(a).is_not_after(at(b)), a <= b, "{a} {b}");
            assert_eq!(at(a).is_later(at(b)), a > b, "{a} {b}");
            assert_eq!(at(a).is_equal(at(b)), a == b, "{a} {b}");
        }
    }
}

#[test]
fn domains_are_normalized() {
    assert_eq!(normalize_domain(" ExAmple.COM. ").unwrap(), "example.com");
    assert_eq!(normalize_domain("a..").unwrap(), "a");
    assert_eq!(normalize_domain("\u{e9}.es").unwrap(), "\u{e9}.es");
    let label = "x".repeat(63);
    assert!(normalize_domain(&label).is_ok());
    let long = [label.as_str(), &label, &label, &"y".repeat(61)].join(".");
    assert_eq!(long.len(), 253);
    assert!(normalize_domain(&long).is_ok());
    for bad in ["", ".", " ", "a..b", ".a", &"x".repeat(64), &format!("{long}z"), &"\u{e9}".repeat(32)] {
        let error = normalize_domain(bad).unwrap_err();
        assert_eq!((error.kind, error.text.as_str()), (ErrorKind::InvalidDomain, bad));
    }
}

#[test]
fn rules_name_a_domain_and_an_address() {
    let mut rules = Redirects::new();
    assert!(rules.is_empty());
    add_redirect(&mut rules, "A.com=1.2.3.4").unwrap();
    add_redirect(&mut rules, "a.com=::5").unwrap();
    add_redirect(&mut rules, "a.com=1.2.3.5").unwrap();
    let both = redirect(&rules, "a.com").unwrap();
    assert_eq!((both.v4, both.v6), (Some(0x0102_0305), Some(5)));
    assert_eq!(rules.len(), 1);
    let refused = |rule: &str| {
        let mut table = Redirects::new();
        let error = add_redirect(&mut table, rule).unwrap_err();
        (error.kind, error.text)
    };
    assert_eq!(refused("a.com"), (ErrorKind::InvalidRedirect, "a.com".to_string()));
    assert_eq!(refused("=1.2.3.4"), (ErrorKind::InvalidDomain, "".to_string()));
    assert_eq!(refused("a.com=b=c"), (ErrorKind::InvalidAddress, "b=c".to_string()));
}

#[test]
fn tables_compare_by_what_they_hold() {
    let mut a = Redirects::new();
    add_redirect(&mut a, "a.com=1.2.3.4").unwrap();
    add_redirect(&mut a, "b.com=1.2.3.4").unwrap();
    let mut b = Redirects::new();
    add_redirect(&mut b, "b.com=1.2.3.4").unwrap();
    assert!(!a.is_equal(&b));
    add_redirect(&mut b, "a.com=1.2.3.4").unwrap();
    assert!(a.is_equal(&b));
    add_redirect(&mut b, "a.com=::1").unwrap();
    assert!(!a.is_equal(&b));
}

#[test]
fn command_line() {
    let plain = run(&[]);
    assert!(!plain.test_mode && plain.redirects.is_empty());
    assert_eq!(plain.port_pairs(), [(5335, 5336), (5337, 5338)]);
    assert_eq!(plain.metrics_port(), 5339);
    let test = run(&["--redirect", "a.com=1.2.3.4", "--test", "--redirect=b.com=::1"]);
    assert!(test.test_mode);
    assert_eq!(test.redirects.len(), 2);
    assert_eq!(redirect(&test.redirects, "b.com").unwrap().v6, Some(1));
    assert_eq!(test.port_pairs(), [(15335, 5336), (15337, 5338)]);
    assert_eq!(test.metrics_port(), 15339);
    assert!(matches!(parse(&["--test", "-h", "--nonsense"]), Ok(Command::Help)));
    assert!(matches!(parse(&["--help"]), Ok(Command::Help)));
}

#[test]
fn command_line_faults() {
    assert_eq!(fault(&["--redirect"]), (ErrorKind::MissingRule, String::new()));
    assert_eq!(fault(&["--test", "-x"]), (ErrorKind::UnknownArgument, "-x".to_string()));
    assert_eq!(fault(&["--redirects=a.com=::1"]).0, ErrorKind::UnknownArgument);
    assert_eq!(
        fault(&["--redirect", "a.com=::1"]),
        (ErrorKind::RedirectWithoutTest, String::new())
    );
    assert_eq!(
        fault(&["--redirect", "--test"]),
        (ErrorKind::InvalidRedirect, "--test".to_string())
    );
    assert_eq!(fault(&["--redirect=..=::1"]), (ErrorKind::InvalidDomain, "..".to_string()));
    assert_eq!(fault(&["--redirect=a.com=x"]), (ErrorKind::InvalidAddress, "x".to_string()));
}

#[test]
fn files_and_their_variables() {
    assert_eq!(Setting::BlockedV4.variable(), "EVADE_BLOCKED_IPV4_FILE");
    assert_eq!(Setting::BlockedV6.variable(), "EVADE_BLOCKED_IPV6_FILE");
    assert_eq!(Setting::CfV4.variable(), "EVADE_CF_IPV4_FILE");
    assert_eq!(Setting::CfV6.variable(), "EVADE_CF_IPV6_FILE");
    assert_eq!(Setting::Stats.variable(), "EVADE_STATS_FILE");
    assert_eq!(Setting::Redirects.variable(), "EVADE_REDIRECTS_FILE");
    assert_eq!(Setting::BlockedV4.default_path(true), "/etc/unbound/blocked_ips.txt");
    assert_eq!(Setting::BlockedV6.default_path(false), "/etc/unbound/blocked_ipv6.txt");
    assert_eq!(
        Setting::CfV4.default_path(false),
        "/etc/unbound/cloudflare_official_v4.txt"
    );
    assert_eq!(
        Setting::CfV6.default_path(false),
        "/etc/unbound/cloudflare_official_v6.txt"
    );
    assert_eq!(Setting::Stats.default_path(true), "/tmp/evade-proxy-test-stats.json");
    assert_eq!(
        Setting::Stats.default_path(false),
        "/root/xpd-dns/scripts/evade_stats.json"
    );
    assert_eq!(
        Setting::Redirects.default_path(false),
        "/run/evade-proxy/redirects.txt"
    );
}

#[test]
fn numbers_of_the_environment() {
    assert_eq!(rewrite_ttl_value(None), 30);
    assert_eq!(rewrite_ttl_value(Some(" 0\n")), 0);
    assert_eq!(rewrite_ttl_value(Some("+45")), 45);
    assert_eq!(rewrite_ttl_value(Some("4294967295")), u32::MAX);
    assert_eq!(rewrite_ttl_value(Some("4294967296")), 30);
    assert_eq!(rewrite_ttl_value(Some("-1")), 30);
    assert_eq!(limit_value(None, 7), 7);
    assert_eq!(limit_value(Some("0"), 7), 7);
    assert_eq!(limit_value(Some(" 12 "), 7), 12);
    assert_eq!(limit_value(Some("12x"), 7), 7);
    let limits = Limits::from_settings(Some("3"), None);
    assert_eq!((limits.udp.available_permits(), limits.tcp.available_permits()), (3, 1024));
    assert_eq!((limits.max_udp, limits.max_tcp), (3, 1024));
    let limits = Limits::default();
    assert_eq!((limits.udp.available_permits(), limits.tcp.available_permits()), (4096, 1024));
    assert_eq!((limits.max_udp, limits.max_tcp), (4096, 1024));
}

#[test]
fn permits_bound_the_queries_in_flight() {
    let limits = Limits::new(2, 1);
    assert_eq!((limits.udp.available_permits(), limits.tcp.available_permits()), (2, 1));
    assert_eq!(limits.inflight_udp(), Some(0));
    let first = limits.udp.clone().try_acquire_owned().unwrap();
    let second = limits.udp.clone().try_acquire_owned().unwrap();
    assert!(limits.udp.clone().try_acquire_owned().is_err());
    assert_eq!(limits.inflight_udp(), Some(2));
    drop(first);
    assert_eq!(limits.inflight_udp(), Some(1));
    drop(second);
    let _slot = limits.tcp.clone().try_acquire_owned().unwrap();
    assert_eq!(limits.inflight_tcp(), Some(1));
    assert_eq!(in_flight(9, 4), 5);
    assert_eq!(permits_out(9, 4), Some(5));
    assert_eq!(permits_out(9, 9), Some(0));
    assert_eq!(permits_out(9, 10), None);
    limits.udp.add_permits(1);
    assert_eq!(limits.inflight_udp(), None);
}

#[test]
fn queries_beyond_the_limit_are_dropped_and_counted() {
    let mut app = App {
        data: Arc::new(Data::default()),
        counters: Counters::default(),
        rewrite_ttl: 30,
        test_redirects: Redirects::new(),
        temporary_redirects: Redirects::new(),
        limits: Limits::new(1, 1),
    };
    let slot = app.admit_udp();
    assert!(Arc::ptr_eq(slot.as_ref().unwrap().semaphore(), &app.limits.udp));
    assert!(app.admit_udp().is_none());
    assert!(app.admit_udp().is_none());
    assert_eq!(app.limits.inflight_udp(), Some(1));
    assert_eq!(app.counters.dropped_udp, 2);
    assert!(app.admit_tcp().is_some());
    let held = app.admit_tcp().unwrap();
    assert!(Arc::ptr_eq(held.semaphore(), &app.limits.tcp));
    assert!(app.admit_tcp().is_none());
    assert_eq!(app.counters.dropped_tcp, 1);
    drop(slot);
    let slot = app.admit_udp();
    assert!(slot.is_some());
    assert_eq!(app.counters.dropped_udp, 2);
    assert!(app.settle_udp(slot).is_some());
    assert!(app.settle_tcp(Some(held)).is_some());
    assert_eq!((app.counters.dropped_udp, app.counters.dropped_tcp), (2, 1));
    assert!(app.settle_udp(None).is_none());
    assert!(app.settle_tcp(None).is_none());
    assert_eq!((app.counters.dropped_udp, app.counters.dropped_tcp), (3, 2));
}

#[test]
fn upkeep_looks_at_the_lists_every_fifth_tick() {
    let mut state = Maintenance::new();
    let due: Vec<u32> = (1..=12).filter(|_| state.tick()).collect();
    assert_eq!(due.len(), 2);
    assert_eq!(state.ticks, 12);
    let mut last = Maintenance { ticks: 254, stamps: None };
    assert!(last.tick());
    assert!(last.tick());
    assert_eq!(last.ticks, 0);
}

#[test]
fn lists_are_loaded_when_a_stamp_changes() {
    let stamp = Some(Stamp { modified: 5, len: 7 });
    let stamps = ListStamps { blocked_v4: stamp, blocked_v6: None, cf_v4: stamp, cf_v6: stamp };
    let mut state = Maintenance::new();
    assert!(state.note_stamps(stamps));
    assert!(!state.note_stamps(stamps));
    let touched = ListStamps { cf_v6: Some(Stamp { modified: 6, len: 7 }), ..stamps };
    assert!(state.note_stamps(touched));
    let gone = ListStamps { blocked_v4: None, ..touched };
    assert!(state.note_stamps(gone));
    assert!(!state.note_stamps(gone));
    assert!(state.note_stamps(ListStamps { cf_v4: Some(Stamp { modified: 5, len: 8 }), ..gone }));
}

#[test]
fn upkeep_installs_what_is_new() {
    let mut app = App {
        data: Arc::new(Data::default()),
        counters: Counters::default(),
        rewrite_ttl: 30,
        test_redirects: Redirects::new(),
        temporary_redirects: Redirects::new(),
        limits: Limits::default(),
    };
    assert!(!app.install_redirects(Redirects::new()));
    let mut fresh = Redirects::new();
    add_redirect(&mut fresh, "a.com=1.2.3.4").unwrap();
    assert!(app.install_redirects(fresh));
    assert_eq!(app.temporary_redirects.len(), 1);
    let data = Data::load(Some("104.16.1.1"), None, Some("104.16.0.0/12"), None, Some(&app.data));
    app.install_lists(data, at(60.0));
    assert_eq!(app.data.evasive_v4(0x6810_0101), Some(0x6810_0102));
    assert_eq!(app.counters.last_reload.bits, 60.0f64.to_bits());
}
