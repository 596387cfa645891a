//! The list files, the ranges and the neighbours.

use evade_proxy::address::{parse_ipv4, parse_ipv6, parse_v4_prefix, parse_v6_prefix, split_prefix};
use evade_proxy::evasion::{scan_evasive_v4, scan_evasive_v6, Data};
use evade_proxy::lists::read_lines;
use evade_proxy::ranges::{containing, merge, merge_v4, merge_v6};
use std::collections::HashSet;

fn ipv4(text: &str) -> Option<u32> {
    let chars: Vec<char> = text.chars().collect();
    parse_ipv4(&chars)
}

fn ipv6(text: &str) -> Option<u128> {
    let chars: Vec<char> = text.chars().collect();
    parse_ipv6(&chars)
}

#[test]
fn parses_and_merges_prefixes() {
    assert_eq!(
        parse_v4_prefix("104.16.1.2/24"),
        Some((0x6810_0100, 0x6810_01ff))
    );
    assert_eq!(
        merge_v4(vec![(1, 3), (4, 7), (10, 11)]),
        vec![(1, 7), (10, 11)]
    );
}

#[test]
fn unreadable_list_keeps_previous_entries() {
    let first = Data::load(
        Some("104.16.1.1\n"),
        Some(""),
        Some("104.16.0.0/12\n"),
        Some(""),
        None,
    );
    assert_eq!(first.evasive_v4(0x6810_0101), Some(0x6810_0102));

    let second = Data::load(None, Some(""), None, Some(""), Some(&first));
    assert_eq!(second.evasive_v4(0x6810_0101), Some(0x6810_0102));

    let third = Data::load(Some(""), Some(""), None, Some(""), Some(&second));
    assert!(third.blocked_v4.is_empty()); // an empty file is a real update
    assert_eq!(third.cf_v4, second.cf_v4);
}

#[test]
fn nothing_readable_at_the_start_is_empty() {
    let data = Data::load(None, None, None, None, None);
    assert!(data.blocked_v4.is_empty() && data.blocked_v6.is_empty());
    assert!(data.is_disabled());
    assert_eq!(data.evasive_v4(1), None);
    assert_eq!(data.evasive_v6(1), None);
    assert!(Data::default().is_disabled());
}

#[test]
fn lists_skip_comments_blank_lines_and_junk() {
    let text = "# head\r\n\n  104.16.1.1  \r\n\t# more\nnot an address\n104.16.1.9";
    assert_eq!(
        read_lines(text),
        vec!["104.16.1.1", "not an address", "104.16.1.9"]
    );
    let data = Data::load(
        Some(text),
        Some("2606:4700::1\n104.16.1.1\n"),
        Some("104.16.0.0/13\njunk\n104.24.0.0/14\n1.2.3.4/33\n"),
        Some("2606:4700::/32"),
        None,
    );
    assert_eq!(data.blocked_v4, HashSet::from([0x6810_0101, 0x6810_0109]));
    assert_eq!(data.blocked_v6, HashSet::from([ipv6("2606:4700::1").unwrap()]));
    // The two blocks touch, and are one range.
    assert_eq!(data.cf_v4, vec![(0x6810_0000, 0x681b_ffff)]);
    assert_eq!(data.evasive_v6(ipv6("2606:4700::1").unwrap()), ipv6("2606:4700::2"));
    assert!(!data.is_disabled());
}

#[test]
fn prefix_lengths() {
    assert_eq!(parse_v4_prefix("0.0.0.0/0"), Some((0, u32::MAX)));
    assert_eq!(parse_v4_prefix("1.2.3.4"), Some((0x0102_0304, 0x0102_0304)));
    assert_eq!(parse_v4_prefix("1.2.3.4/"), Some((0x0102_0304, 0x0102_0304)));
    assert_eq!(parse_v4_prefix("1.2.3.4/33"), None);
    assert_eq!(parse_v4_prefix("1.2.3.4/x"), None);
    assert_eq!(parse_v4_prefix("1.2.3/24"), None);
    assert_eq!(parse_v6_prefix("::/0"), Some((0, u128::MAX)));
    assert_eq!(
        parse_v6_prefix("2606:4700::1/32"),
        Some((0x2606_4700u128 << 96, (0x2606_4701u128 << 96) - 1))
    );
    assert_eq!(parse_v6_prefix("::1/129"), None);
    assert_eq!(split_prefix::<u32>("1.2.3.4/8", 32), Some((0x0102_0304, 8)));
    assert_eq!(split_prefix::<u32>("1.2.3.4/+8", 32), Some((0x0102_0304, 8)));
    assert_eq!(split_prefix::<u128>("::7", 128), Some((7, 128)));
}

#[test]
fn merging_sorts_joins_and_keeps_gaps() {
    assert_eq!(
        merge(vec![(10u32, 20), (1, 2), (3, 5), (12, 13), (22, 30)]),
        vec![(1, 5), (10, 20), (22, 30)]
    );
    assert_eq!(
        merge(vec![(0u32, u32::MAX), (7, 9)]),
        vec![(0, u32::MAX)]
    );
    assert_eq!(merge_v6(vec![(5, 6), (0, 4)]), vec![(0, 6)]);
    assert_eq!(merge_v4(Vec::new()), Vec::new());
}

#[test]
fn lookup_finds_the_range_that_holds_an_address() {
    let ranges = [(10u32, 20), (30, 40)];
    assert_eq!(containing(&ranges, 9), None);
    assert_eq!(containing(&ranges, 10), Some((10, 20)));
    assert_eq!(containing(&ranges, 20), Some((10, 20)));
    assert_eq!(containing(&ranges, 25), None);
    assert_eq!(containing(&ranges, 40), Some((30, 40)));
    assert_eq!(containing(&ranges, 41), None);
    assert_eq!(containing::<u32>(&[], 1), None);
}

#[test]
fn neighbours_come_from_the_own_block_first() {
    let cf = [(0x6810_0000, 0x6810_ffff)];
    let blocked = HashSet::from([0x6810_0101, 0x6810_0102]);
    // One up is taken, one down would be the first address of the block.
    assert_eq!(scan_evasive_v4(0x6810_0101, &cf, &blocked), Some(0x6810_0103));
    assert_eq!(scan_evasive_v4(0x6810_0102, &cf, &blocked), Some(0x6810_0103));
    // Up comes before down.
    let blocked = HashSet::from([0x6810_0105]);
    assert_eq!(scan_evasive_v4(0x6810_0105, &cf, &blocked), Some(0x6810_0106));
    // A full block is left, past the two addresses that close and open a block.
    let full: HashSet<u32> = (0x6810_0100..=0x6810_01ff).collect();
    assert_eq!(scan_evasive_v4(0x6810_0180, &cf, &full), Some(0x6810_0201));
    assert_eq!(scan_evasive_v4(0x6811_0001, &cf, &full), None);
    // Nothing free in the range.
    assert_eq!(
        scan_evasive_v4(0x6810_0101, &[(0x6810_0100, 0x6810_01ff)], &full),
        None
    );
}

#[test]
fn neighbours_stay_in_their_range_at_the_ends_of_the_family() {
    let blocked = HashSet::from([u32::MAX - 1]);
    assert_eq!(
        scan_evasive_v4(u32::MAX - 1, &[(u32::MAX - 3, u32::MAX)], &blocked),
        Some(u32::MAX - 2)
    );
    let blocked = HashSet::from([u128::MAX, 0]);
    assert_eq!(
        scan_evasive_v6(u128::MAX, &[(0, u128::MAX)], &blocked),
        Some(u128::MAX - 1)
    );
    assert_eq!(scan_evasive_v6(0, &[(0, u128::MAX)], &blocked), Some(1));
    assert_eq!(scan_evasive_v6(0, &[(0, 0)], &blocked), None);
    assert_eq!(scan_evasive_v6(0, &[(5, 9)], &blocked), None);
}

#[test]
fn ipv6_search_ends_within_its_reach() {
    let blocked: HashSet<u128> = (5000..=5000 + 1023).chain(5000 - 1023..5000).collect();
    assert_eq!(scan_evasive_v6(5000, &[(0, 10_000)], &blocked), None);
    let nearer: HashSet<u128> = blocked.iter().copied().filter(|&ip| ip != 3977).collect();
    assert_eq!(scan_evasive_v6(5000, &[(0, 10_000)], &nearer), Some(3977));
}

#[test]
fn ipv4_text() {
    assert_eq!(ipv4("1.2.3.4"), Some(0x0102_0304));
    assert_eq!(ipv4("255.255.255.255"), Some(u32::MAX));
    for bad in [
        "", "1.2.3", "1.2.3.4.5", "256.1.1.1", "01.2.3.4", "1.2.3.4 ", "1..3.4", "+1.2.3.4", "1.2.3.",
    ] {
        assert_eq!(ipv4(bad), None, "{bad}");
    }
}

#[test]
fn ipv6_text() {
    assert_eq!(ipv6("::"), Some(0));
    assert_eq!(ipv6("::1"), Some(1));
    assert_eq!(ipv6("1::"), Some(1u128 << 112));
    assert_eq!(ipv6("2001:DB8::7"), Some((0x2001_0db8u128 << 96) + 7));
    assert_eq!(ipv6("1:2:3:4:5:6:7:8"), Some(0x0001_0002_0003_0004_0005_0006_0007_0008));
    assert_eq!(ipv6("::ffff:1.2.3.4"), Some(0xffff_0102_0304));
    assert_eq!(ipv6("1:2:3:4:5:6:1.2.3.4"), Some(0x0001_0002_0003_0004_0005_0006_0102_0304));
    for bad in [
        "", ":", ":::", "1", "1:2:3:4:5:6:7", "1:2:3:4:5:6:7:8:9", "::1::2", "12345::", "::g", "1.2.3.4",
        "::1.2.3.4:1", "1:2:3:4:5:6:7:1.2.3.4", ":1::", "1:2:3:4:5:6:7:8::", "::1%eth0",
    ] {
        assert_eq!(ipv6(bad), None, "{bad}");
    }
}
