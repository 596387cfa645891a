//! The list files: blocked addresses and rewritable prefixes, one entry a line.

use crate::address;
use crate::address::{parse_ipv4, parse_ipv6, parse_v4_prefix, parse_v6_prefix};
use crate::evasion::{copy_set, Data};
use crate::laws;
use crate::ranges;
use crate::ranges::{merge_v4, merge_v6, Address};
use crate::redirects;
use crate::text;
use crate::text::{chars_of, split, string_of, trim};
use std::collections::HashSet;
use vstd::prelude::*;

verus! {

/// The entries among `lines`: the trimmed lines that are neither empty nor a
/// comment.
pub open spec fn entries(lines: Seq<Seq<char>>) -> Seq<Seq<char>>
    decreases lines.len(),
{
    if lines.len() == 0 {
        Seq::empty()
    } else {
        let before = entries(lines.drop_last());
        let line = text::trimmed(lines.last());
        if redirects::ignorable(line) {
            before
        } else {
            before.push(line)
        }
    }
}

/// The entries of a list file.
pub open spec fn entries_of(file: Seq<char>) -> Seq<Seq<char>> {
    entries(redirects::lines_of(file))
}

/// The texts of a list of strings.
pub open spec fn string_views(list: Seq<String>) -> Seq<Seq<char>> {
    Seq::new(list.len(), |i: int| list[i]@)
}

/// Splits a list file into its entries.
pub fn read_lines(file: &str) -> (list: Vec<String>)
    ensures
        string_views(list@) == entries_of(file@),
{
    let chars: Vec<char> = chars_of(file);
    let lines: Vec<Vec<char>> = split(chars.as_slice(), '\n');
    let ghost whole = redirects::lines_of(file@);
    let mut list: Vec<String> = Vec::new();
    let mut at: usize = 0;
    assert(whole == text::texts(lines@));
    assert(whole.take(0) == Seq::<Seq<char>>::empty());
    assert(string_views(list@) =~= entries(whole.take(0)));
    while at < lines.len()
        invariant
            at <= lines@.len(),
            whole == text::texts(lines@),
            string_views(list@) == entries(whole.take(at as int)),
        decreases lines@.len() - at,
    {
        let ghost before = list@;
        let line: &[char] = trim(lines[at].as_slice());
        proof {
            assert(whole[at as int] == lines@[at as int]@);
            assert(whole.take(at + 1).drop_last() == whole.take(at as int));
        }
        if line.len() > 0 && line[0] != '#' {
            list.push(string_of(line));
            assert(string_views(list@) =~= string_views(before).push(line@));
        }
        at = at + 1;
    }
    assert(whole.take(whole.len() as int) == whole);
    list
}

/// The IPv4 addresses that a list holds; entries that are none count for nothing.
pub open spec fn v4_addresses(list: Seq<Seq<char>>) -> Set<u32> {
    Set::new(
        |ip: u32| exists|i: int| 0 <= i < list.len() && address::ipv4_of(#[trigger] list[i]) == Some(ip),
    )
}

/// The IPv6 addresses that a list holds; entries that are none count for nothing.
pub open spec fn v6_addresses(list: Seq<Seq<char>>) -> Set<u128> {
    Set::new(
        |ip: u128| exists|i: int| 0 <= i < list.len() && address::ipv6_of(#[trigger] list[i]) == Some(ip),
    )
}

/// The IPv4 ranges of the prefixes that a list holds, in its order; entries that
/// are no prefix count for nothing.
pub open spec fn v4_prefixes(list: Seq<Seq<char>>) -> Seq<(u32, u32)>
    decreases list.len(),
{
    if list.len() == 0 {
        Seq::empty()
    } else {
        match address::v4_prefix_of(list.last()) {
            Some(range) => v4_prefixes(list.drop_last()).push(range),
            None => v4_prefixes(list.drop_last()),
        }
    }
}

/// The IPv6 ranges of the prefixes that a list holds, in its order; entries that
/// are no prefix count for nothing.
pub open spec fn v6_prefixes(list: Seq<Seq<char>>) -> Seq<(u128, u128)>
    decreases list.len(),
{
    if list.len() == 0 {
        Seq::empty()
    } else {
        match address::v6_prefix_of(list.last()) {
            Some(range) => v6_prefixes(list.drop_last()).push(range),
            None => v6_prefixes(list.drop_last()),
        }
    }
}

/// Reads the IPv4 addresses of a list file.
fn read_v4_addresses(file: &str) -> (set: HashSet<u32>)
    ensures
        set@ == v4_addresses(entries_of(file@)),
{
    let list: Vec<String> = read_lines(file);
    let ghost whole = entries_of(file@);
    let mut set: HashSet<u32> = HashSet::new();
    let mut at: usize = 0;
    assert(set@ =~= v4_addresses(whole.take(0)));
    while at < list.len()
        invariant
            at <= list@.len(),
            whole == string_views(list@),
            set@ == v4_addresses(whole.take(at as int)),
        decreases list@.len() - at,
    {
        let ghost before = set@;
        let ghost now = whole.take(at + 1);
        let chars: Vec<char> = chars_of(list[at].as_str());
        let found: Option<u32> = parse_ipv4(chars.as_slice());
        if let Some(ip) = found {
            set.insert(ip);
        }
        proof {
            assert(now[at as int] == list@[at as int]@);
            assert forall|ip: u32| set@.contains(ip) == v4_addresses(now).contains(ip) by {
                if before.contains(ip) {
                    let i = choose|i: int|
                        0 <= i < at && address::ipv4_of(#[trigger] whole.take(at as int)[i]) == Some(
                            ip,
                        );
                    assert(now[i] == whole.take(at as int)[i]);
                }
                if v4_addresses(now).contains(ip) {
                    let i = choose|i: int|
                        0 <= i < now.len() && address::ipv4_of(#[trigger] now[i]) == Some(ip);
                    if i < at {
                        assert(whole.take(at as int)[i] == now[i]);
                    }
                }
            }
            assert(set@ =~= v4_addresses(now));
        }
        at = at + 1;
    }
    assert(whole.take(whole.len() as int) == whole);
    set
}

/// Reads the IPv6 addresses of a list file.
fn read_v6_addresses(file: &str) -> (set: HashSet<u128>)
    ensures
        set@ == v6_addresses(entries_of(file@)),
{
    let list: Vec<String> = read_lines(file);
    let ghost whole = entries_of(file@);
    let mut set: HashSet<u128> = HashSet::new();
    let mut at: usize = 0;
    assert(set@ =~= v6_addresses(whole.take(0)));
    while at < list.len()
        invariant
            at <= list@.len(),
            whole == string_views(list@),
            set@ == v6_addresses(whole.take(at as int)),
        decreases list@.len() - at,
    {
        let ghost before = set@;
        let ghost now = whole.take(at + 1);
        let chars: Vec<char> = chars_of(list[at].as_str());
        let found: Option<u128> = parse_ipv6(chars.as_slice());
        if let Some(ip) = found {
            set.insert(ip);
        }
        proof {
            assert(now[at as int] == list@[at as int]@);
            assert forall|ip: u128| set@.contains(ip) == v6_addresses(now).contains(ip) by {
                if before.contains(ip) {
                    let i = choose|i: int|
                        0 <= i < at && address::ipv6_of(#[trigger] whole.take(at as int)[i]) == Some(
                            ip,
                        );
                    assert(now[i] == whole.take(at as int)[i]);
                }
                if v6_addresses(now).contains(ip) {
                    let i = choose|i: int|
                        0 <= i < now.len() && address::ipv6_of(#[trigger] now[i]) == Some(ip);
                    if i < at {
                        assert(whole.take(at as int)[i] == now[i]);
                    }
                }
            }
            assert(set@ =~= v6_addresses(now));
        }
        at = at + 1;
    }
    assert(whole.take(whole.len() as int) == whole);
    set
}

/// Reads the IPv4 prefixes of a list file and merges their ranges.
fn read_v4_ranges(file: &str) -> (out: Vec<(u32, u32)>)
    ensures
        out@ == ranges::merged(v4_prefixes(entries_of(file@))),
        ranges::by_start(out@),
{
    let list: Vec<String> = read_lines(file);
    let ghost whole = entries_of(file@);
    let mut found: Vec<(u32, u32)> = Vec::new();
    let mut at: usize = 0;
    assert(whole.take(0) == Seq::<Seq<char>>::empty());
    while at < list.len()
        invariant
            at <= list@.len(),
            whole == string_views(list@),
            found@ == v4_prefixes(whole.take(at as int)),
        decreases list@.len() - at,
    {
        proof {
            assert(whole[at as int] == list@[at as int]@);
            assert(whole.take(at + 1).drop_last() == whole.take(at as int));
        }
        if let Some(range) = parse_v4_prefix(list[at].as_str()) {
            found.push(range);
        }
        at = at + 1;
    }
    assert(whole.take(whole.len() as int) == whole);
    merge_v4(found)
}

/// Reads the IPv6 prefixes of a list file and merges their ranges.
fn read_v6_ranges(file: &str) -> (out: Vec<(u128, u128)>)
    ensures
        out@ == ranges::merged(v6_prefixes(entries_of(file@))),
        ranges::by_start(out@),
{
    let list: Vec<String> = read_lines(file);
    let ghost whole = entries_of(file@);
    let mut found: Vec<(u128, u128)> = Vec::new();
    let mut at: usize = 0;
    assert(whole.take(0) == Seq::<Seq<char>>::empty());
    while at < list.len()
        invariant
            at <= list@.len(),
            whole == string_views(list@),
            found@ == v6_prefixes(whole.take(at as int)),
        decreases list@.len() - at,
    {
        proof {
            assert(whole[at as int] == list@[at as int]@);
            assert(whole.take(at + 1).drop_last() == whole.take(at as int));
        }
        if let Some(range) = parse_v6_prefix(list[at].as_str()) {
            found.push(range);
        }
        at = at + 1;
    }
    assert(whole.take(whole.len() as int) == whole);
    merge_v6(found)
}

/// Copies a list of ranges.
fn copy_ranges<T: Address>(list: &Vec<(T, T)>) -> (copy: Vec<(T, T)>)
    ensures
        copy@ == list@,
{
    let mut copy: Vec<(T, T)> = Vec::new();
    while copy.len() < list.len()
        invariant
            copy@.len() <= list@.len(),
            copy@ == list@.take(copy@.len() as int),
        decreases list@.len() - copy@.len(),
    {
        copy.push(list[copy.len()]);
        assert(copy@ =~= list@.take(copy@.len() as int));
    }
    copy
}

/// The blocked IPv4 addresses after a load: those of the file, or those that
/// were known where the file could not be read.
pub open spec fn blocked_v4_after(file: Option<&str>, previous: Option<&Data>) -> Set<u32> {
    match (file, previous) {
        (Some(file), _) => v4_addresses(entries_of(file@)),
        (None, Some(previous)) => previous.blocked_v4@,
        (None, None) => Set::empty(),
    }
}

/// The blocked IPv6 addresses after a load.
pub open spec fn blocked_v6_after(file: Option<&str>, previous: Option<&Data>) -> Set<u128> {
    match (file, previous) {
        (Some(file), _) => v6_addresses(entries_of(file@)),
        (None, Some(previous)) => previous.blocked_v6@,
        (None, None) => Set::empty(),
    }
}

/// The rewritable IPv4 ranges after a load.
pub open spec fn cf_v4_after(file: Option<&str>, previous: Option<&Data>) -> Seq<(u32, u32)> {
    match (file, previous) {
        (Some(file), _) => ranges::merged(v4_prefixes(entries_of(file@))),
        (None, Some(previous)) => previous.cf_v4@,
        (None, None) => Seq::empty(),
    }
}

/// The rewritable IPv6 ranges after a load.
pub open spec fn cf_v6_after(file: Option<&str>, previous: Option<&Data>) -> Seq<(u128, u128)> {
    match (file, previous) {
        (Some(file), _) => ranges::merged(v6_prefixes(entries_of(file@))),
        (None, Some(previous)) => previous.cf_v6@,
        (None, None) => Seq::empty(),
    }
}

impl Data {
    /// Takes up the four list files. One that could not be read, `None`, keeps
    /// the entries of `previous`: evasion is not switched off by a missing file.
    pub fn load(
        blocked_v4: Option<&str>,
        blocked_v6: Option<&str>,
        cf_v4: Option<&str>,
        cf_v6: Option<&str>,
        previous: Option<&Data>,
    ) -> (data: Data)
        requires
            previous matches Some(previous) ==> previous.wf(),
        ensures
            data.wf(),
            data.blocked_v4@ == blocked_v4_after(blocked_v4, previous),
            data.blocked_v6@ == blocked_v6_after(blocked_v6, previous),
            data.cf_v4@ == cf_v4_after(cf_v4, previous),
            data.cf_v6@ == cf_v6_after(cf_v6, previous),
            (previous matches Some(previous) ==> laws::tidy(*previous)) ==> laws::tidy(data),
    {
        let ghost files = (cf_v4, cf_v6);
        let blocked_v4: HashSet<u32> = match (blocked_v4, previous) {
            (Some(file), _) => read_v4_addresses(file),
            (None, Some(previous)) => copy_set(&previous.blocked_v4),
            (None, None) => HashSet::new(),
        };
        let blocked_v6: HashSet<u128> = match (blocked_v6, previous) {
            (Some(file), _) => read_v6_addresses(file),
            (None, Some(previous)) => copy_set(&previous.blocked_v6),
            (None, None) => HashSet::new(),
        };
        let cf_v4: Vec<(u32, u32)> = match (cf_v4, previous) {
            (Some(file), _) => read_v4_ranges(file),
            (None, Some(previous)) => copy_ranges(&previous.cf_v4),
            (None, None) => Vec::new(),
        };
        let cf_v6: Vec<(u128, u128)> = match (cf_v6, previous) {
            (Some(file), _) => read_v6_ranges(file),
            (None, Some(previous)) => copy_ranges(&previous.cf_v6),
            (None, None) => Vec::new(),
        };
        let data: Data = Data::new(blocked_v4, blocked_v6, cf_v4, cf_v6);
        proof {
            if let Some(file) = files.0 {
                lemma_v4_prefixes(entries_of(file@), 0);
                ranges::law_merge_normalizes(v4_prefixes(entries_of(file@)));
            }
            if let Some(file) = files.1 {
                lemma_v6_prefixes(entries_of(file@), 0);
                ranges::law_merge_normalizes(v6_prefixes(entries_of(file@)));
            }
        }
        data
    }

    /// Whether there is nothing that an address could be rewritten to.
    pub fn is_disabled(&self) -> (answer: bool)
        ensures
            answer == (self.cf_v4@.len() == 0 && self.cf_v6@.len() == 0),
    {
        self.cf_v4.len() == 0 && self.cf_v6.len() == 0
    }
}

/// Whether an entry is an IPv4 prefix that holds `ip`.
pub open spec fn lists_v4(entry: Seq<char>, ip: u32) -> bool {
    address::v4_prefix_of(entry) matches Some(range) && ranges::within(range, ip)
}

pub proof fn lemma_v4_prefixes(list: Seq<Seq<char>>, ip: u32)
    ensures
        ranges::upward(v4_prefixes(list)),
        ranges::covers(v4_prefixes(list), ip) <==> exists|i: int|
            0 <= i < list.len() && lists_v4(#[trigger] list[i], ip),
    decreases list.len(),
{
    if list.len() > 0 {
        let init = list.drop_last();
        let before = v4_prefixes(init);
        let now = v4_prefixes(list);
        let last = list[list.len() - 1];
        lemma_v4_prefixes(init, ip);
        address::lemma_v4_prefix_upward(last);
        if ranges::covers(now, ip) {
            let i = choose|i: int| 0 <= i < now.len() && ranges::within(#[trigger] now[i], ip);
            if i < before.len() {
                assert(ranges::within(before[i], ip));
                let j = choose|j: int| 0 <= j < init.len() && lists_v4(#[trigger] init[j], ip);
                assert(lists_v4(list[j], ip));
            } else {
                assert(lists_v4(list[list.len() - 1], ip));
            }
        }
        if exists|i: int| 0 <= i < list.len() && lists_v4(#[trigger] list[i], ip) {
            let i = choose|i: int| 0 <= i < list.len() && lists_v4(#[trigger] list[i], ip);
            if i < init.len() {
                assert(lists_v4(init[i], ip));
                let j = choose|j: int|
                    0 <= j < before.len() && ranges::within(#[trigger] before[j], ip);
                assert(now[j] == before[j]);
            } else {
                assert(now[now.len() - 1] == address::v4_prefix_of(last)->0);
            }
        }
    }
}

/// After a load of a readable file, an IPv4 address is rewritable exactly where
/// one of the prefixes in the file holds it.
pub proof fn law_rewritable_is_listed_v4(file: &str, previous: Option<&Data>, ip: u32)
    ensures
        ranges::range_of(cf_v4_after(Some(file), previous), ip) is Some <==> exists|i: int|
            0 <= i < entries_of(file@).len() && lists_v4(#[trigger] entries_of(file@)[i], ip),
{
    let found = v4_prefixes(entries_of(file@));
    lemma_v4_prefixes(entries_of(file@), ip);
    ranges::law_merge_normalizes(found);
    ranges::law_lookup_is_membership(ranges::merged(found), ip);
    assert(ranges::covers(ranges::merged(found), ip) <==> ranges::covers(found, ip));
}

/// Whether an entry is an IPv6 prefix that holds `ip`.
pub open spec fn lists_v6(entry: Seq<char>, ip: u128) -> bool {
    address::v6_prefix_of(entry) matches Some(range) && ranges::within(range, ip)
}

pub proof fn lemma_v6_prefixes(list: Seq<Seq<char>>, ip: u128)
    ensures
        ranges::upward(v6_prefixes(list)),
        ranges::covers(v6_prefixes(list), ip) <==> exists|i: int|
            0 <= i < list.len() && lists_v6(#[trigger] list[i], ip),
    decreases list.len(),
{
    if list.len() > 0 {
        let init = list.drop_last();
        let before = v6_prefixes(init);
        let now = v6_prefixes(list);
        let last = list[list.len() - 1];
        lemma_v6_prefixes(init, ip);
        address::lemma_v6_prefix_upward(last);
        if ranges::covers(now, ip) {
            let i = choose|i: int| 0 <= i < now.len() && ranges::within(#[trigger] now[i], ip);
            if i < before.len() {
                assert(ranges::within(before[i], ip));
                let j = choose|j: int| 0 <= j < init.len() && lists_v6(#[trigger] init[j], ip);
                assert(lists_v6(list[j], ip));
            } else {
                assert(lists_v6(list[list.len() - 1], ip));
            }
        }
        if exists|i: int| 0 <= i < list.len() && lists_v6(#[trigger] list[i], ip) {
            let i = choose|i: int| 0 <= i < list.len() && lists_v6(#[trigger] list[i], ip);
            if i < init.len() {
                assert(lists_v6(init[i], ip));
                let j = choose|j: int|
                    0 <= j < before.len() && ranges::within(#[trigger] before[j], ip);
                assert(now[j] == before[j]);
            } else {
                assert(now[now.len() - 1] == address::v6_prefix_of(last)->0);
            }
        }
    }
}

/// After a load of a readable file, an IPv6 address is rewritable exactly where
/// one of the prefixes in the file holds it.
pub proof fn law_rewritable_is_listed_v6(file: &str, previous: Option<&Data>, ip: u128)
    ensures
        ranges::range_of(cf_v6_after(Some(file), previous), ip) is Some <==> exists|i: int|
            0 <= i < entries_of(file@).len() && lists_v6(#[trigger] entries_of(file@)[i], ip),
{
    let found = v6_prefixes(entries_of(file@));
    lemma_v6_prefixes(entries_of(file@), ip);
    ranges::law_merge_normalizes(found);
    ranges::law_lookup_is_membership(ranges::merged(found), ip);
    assert(ranges::covers(ranges::merged(found), ip) <==> ranges::covers(found, ip));
}

} // verus!
