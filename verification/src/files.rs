//! What holds of the files that are read: the lists, and the temporary redirects.

use crate::address;
use crate::evasion::Data;
use crate::lists;
use crate::ranges;
use crate::ranges::Address;
use crate::readings;
use crate::redirects;
use crate::redirects::{ErrorKind, LineOutcome, TestRedirect, Timestamp};
use crate::text;
use vstd::prelude::*;
use vstd::utf8;

verus! {

/// Whether `lines` are the lines of a file: a line break stands between any two of
/// them, and none in them.
pub open spec fn are_lines(file: Seq<char>, lines: Seq<Seq<char>>) -> bool {
    &&& lines.len() > 0
    &&& file == text::joined(lines, '\n')
    &&& forall|i: int| 0 <= i < lines.len() ==> !(#[trigger] lines[i]).contains('\n')
}

/// A file has lines, and they are its lines and no others.
pub proof fn law_lines(file: Seq<char>, lines: Seq<Seq<char>>)
    ensures
        redirects::lines_of(file) == lines <==> are_lines(file, lines),
{
    let found = redirects::lines_of(file);
    text::lemma_pieces_free(file, '\n');
    readings::law_cutting_and_joining(file, found, '\n');
    if are_lines(file, lines) {
        text::lemma_pieces_of_joined(lines, '\n');
    }
}

/// The entries of a list file are its lines without the white space round them,
/// except those that are empty then or start with a number sign.
pub proof fn law_entries(lines: Seq<Seq<char>>)
    ensures
        lists::entries(lines) == lines.map_values(|line: Seq<char>| text::trimmed(line)).filter(
            |line: Seq<char>| line.len() > 0 && line[0] != '#',
        ),
    decreases lines.len(),
{
    reveal(Seq::filter);
    let trim = |line: Seq<char>| text::trimmed(line);
    let counts = |line: Seq<char>| line.len() > 0 && line[0] != '#';
    if lines.len() > 0 {
        let init = lines.drop_last();
        law_entries(init);
        let all = lines.map_values(trim);
        assert(all.drop_last() =~= init.map_values(trim));
        assert(all.last() == text::trimmed(lines.last()));
    } else {
        assert(lines.map_values(trim).len() == 0);
        assert(lines.map_values(trim).filter(counts) =~= Seq::<Seq<char>>::empty());
    }
}

proof fn lemma_entry_is_line(lines: Seq<Seq<char>>, entry: Seq<char>)
    ensures
        lists::entries(lines).contains(entry) <==> entry.len() > 0 && entry[0] != '#' && exists|i: int|
            0 <= i < lines.len() && text::trimmed(#[trigger] lines[i]) == entry,
    decreases lines.len(),
{
    if lines.len() > 0 {
        let init = lines.drop_last();
        let before = lists::entries(init);
        let now = lists::entries(lines);
        lemma_entry_is_line(init, entry);
        let last = lines.len() - 1;
        if now.contains(entry) {
            let k = choose|k: int| 0 <= k < now.len() && now[k] == entry;
            if k < before.len() {
                assert(before[k] == entry);
                assert(before.contains(entry));
                let i = choose|i: int| 0 <= i < init.len() && text::trimmed(#[trigger] init[i]) == entry;
                assert(lines[i] == init[i]);
            } else {
                assert(text::trimmed(lines[last]) == entry);
            }
        }
        if entry.len() > 0 && entry[0] != '#' && exists|i: int|
            0 <= i < lines.len() && text::trimmed(#[trigger] lines[i]) == entry {
            let i = choose|i: int| 0 <= i < lines.len() && text::trimmed(#[trigger] lines[i]) == entry;
            if i < last {
                assert(text::trimmed(init[i]) == entry);
                assert(before.contains(entry));
                let k = choose|k: int| 0 <= k < before.len() && before[k] == entry;
                assert(now[k] == entry);
            } else {
                assert(now[now.len() - 1] == entry);
            }
        }
    }
}

proof fn lemma_joined_starts(list: Seq<Seq<char>>, separator: char)
    requires
        list.len() > 0,
        list[0].len() > 0,
    ensures
        text::joined(list, separator).len() > 0,
        text::joined(list, separator)[0] == list[0][0],
    decreases list.len(),
{
    if list.len() > 1 {
        assert(list.drop_last()[0] == list[0]);
        lemma_joined_starts(list.drop_last(), separator);
    }
}

proof fn lemma_groups_start(s: Seq<char>, list: Seq<u16>, v4_tail: bool)
    requires
        readings::spells_groups(s, list, v4_tail),
        s.len() > 0,
    ensures
        s[0] != '#',
{
    let texts = choose|texts: Seq<Seq<char>>|
        texts.len() > 0 && s == #[trigger] text::joined(texts, ':') && text::free_of(texts, ':')
            && readings::texts_spell(texts, list, v4_tail);
    let first = texts[0];
    if address::group(first) is Some {
        readings::law_ipv6_group(first);
        assert(readings::hex(first[0]) >= 0);
    } else {
        readings::law_only_ipv4_texts(first);
    }
    lemma_joined_starts(texts, ':');
}

proof fn lemma_ipv6_starts(s: Seq<char>)
    requires
        address::ipv6_of(s) is Some,
    ensures
        s.len() > 0,
        s[0] != '#',
{
    let value = address::ipv6_of(s)->0;
    if forall|k: int| !#[trigger] readings::colons_at(s, k) {
        readings::law_ipv6_in_full(s, value);
        let list = choose|list: Seq<u16>| #[trigger]
            readings::spells_groups(s, list, true) && list.len() == 8 && value
                == readings::eight_groups(list);
        lemma_groups_start(s, list, true);
    } else {
        let some = choose|k: int| #[trigger] readings::colons_at(s, k);
        let at = lemma_first_colons(s, some);
        readings::law_ipv6_with_gap(s, at, value);
        if at > 0 {
            let (head, tail) = choose|head: Seq<u16>, tail: Seq<u16>|
                #![trigger readings::spells_groups(s.take(at), head, false), readings::spells_groups(s.skip(at + 2), tail, true)]
                readings::spells_groups(s.take(at), head, false) && readings::spells_groups(
                    s.skip(at + 2),
                    tail,
                    true,
                ) && head.len() + tail.len() <= 7 && value == readings::eight_groups(
                    head + Seq::new((8 - head.len() - tail.len()) as nat, |i: int| 0u16) + tail,
                );
            lemma_groups_start(s.take(at), head, false);
        }
    }
}

proof fn lemma_first_colons(s: Seq<char>, some: int) -> (at: int)
    requires
        readings::colons_at(s, some),
    ensures
        readings::colons_at(s, at),
        forall|k: int| 0 <= k < at ==> !#[trigger] readings::colons_at(s, k),
    decreases some,
{
    if exists|k: int| 0 <= k < some && #[trigger] readings::colons_at(s, k) {
        let k = choose|k: int| 0 <= k < some && #[trigger] readings::colons_at(s, k);
        lemma_first_colons(s, k)
    } else {
        some
    }
}

proof fn lemma_v4_prefix_starts(s: Seq<char>)
    requires
        address::v4_prefix_of(s) is Some,
    ensures
        s.len() > 0,
        s[0] != '#',
{
    let at = text::place_of(s, '/');
    readings::law_first_place(s, '/', 0);
    if at is Some {
        readings::law_first_place(s, '/', at->0);
        readings::law_only_ipv4_texts(s.take(at->0));
    } else {
        readings::law_only_ipv4_texts(s);
    }
}

proof fn lemma_v6_prefix_starts(s: Seq<char>)
    requires
        address::v6_prefix_of(s) is Some,
    ensures
        s.len() > 0,
        s[0] != '#',
{
    let at = text::place_of(s, '/');
    readings::law_first_place(s, '/', 0);
    if at is Some {
        readings::law_first_place(s, '/', at->0);
        lemma_ipv6_starts(s.take(at->0));
    } else {
        lemma_ipv6_starts(s);
    }
}

/// After a load of a readable file, the blocked IPv4 addresses are those that stand
/// alone on a line of it, white space round them aside.
pub proof fn law_blocked_v4(
    file: &str,
    lines: Seq<Seq<char>>,
    previous: Option<&Data>,
    ip: u32,
)
    requires
        are_lines(file@, lines),
    ensures
        lists::blocked_v4_after(Some(file), previous).contains(ip) <==> exists|i: int|
            0 <= i < lines.len() && address::ipv4_of(text::trimmed(#[trigger] lines[i])) == Some(ip),
{
    law_lines(file@, lines);
    let found = lists::entries(lines);
    if lists::blocked_v4_after(Some(file), previous).contains(ip) {
        let k = choose|k: int| 0 <= k < found.len() && address::ipv4_of(#[trigger] found[k]) == Some(ip);
        lemma_entry_is_line(lines, found[k]);
        assert(found.contains(found[k]));
    }
    if exists|i: int|
        0 <= i < lines.len() && address::ipv4_of(text::trimmed(#[trigger] lines[i])) == Some(ip) {
        let i = choose|i: int|
            0 <= i < lines.len() && address::ipv4_of(text::trimmed(#[trigger] lines[i])) == Some(ip);
        let entry = text::trimmed(lines[i]);
        readings::law_only_ipv4_texts(entry);
        lemma_entry_is_line(lines, entry);
        let k = choose|k: int| 0 <= k < found.len() && found[k] == entry;
        assert(address::ipv4_of(found[k]) == Some(ip));
    }
}

/// Whether a line of the file is a prefix that holds `ip`.
pub open spec fn line_holds_v4(line: Seq<char>, ip: u32) -> bool {
    address::v4_prefix_of(text::trimmed(line)) matches Some((start, end)) && start <= ip <= end
}

/// After a load of a readable file, the rewritable IPv4 ranges are in order, with a
/// gap between any two, and hold the addresses that the prefixes on its lines hold
/// and no others.
pub proof fn law_rewritable_v4(
    file: &str,
    lines: Seq<Seq<char>>,
    previous: Option<&Data>,
    ip: u32,
)
    requires
        are_lines(file@, lines),
    ensures
        ({
            let known = lists::cf_v4_after(Some(file), previous);
            &&& forall|i: int| 0 <= i < known.len() ==> (#[trigger] known[i]).0 <= known[i].1
            &&& forall|i: int, j: int|
                0 <= i < j < known.len() ==> (#[trigger] known[i]).1 + 1 < (#[trigger] known[j]).0
            &&& (exists|k: int| 0 <= k < known.len() && (#[trigger] known[k]).0 <= ip <= known[k].1)
                <==> (exists|i: int| 0 <= i < lines.len() && line_holds_v4(#[trigger] lines[i], ip))
        }),
{
    law_lines(file@, lines);
    let entries = lists::entries(lines);
    let found = lists::v4_prefixes(entries);
    let known = ranges::merged(found);
    assert(known == lists::cf_v4_after(Some(file), previous));
    lists::lemma_v4_prefixes(entries, ip);
    ranges::law_merge_normalizes(found);
    assert(ranges::covers(known, ip) <==> ranges::covers(found, ip));
    assert forall|i: int| 0 <= i < known.len() implies (#[trigger] known[i]).0 <= known[i].1 by {
        assert(known[i].0.value() <= known[i].1.value());
    }
    assert forall|i: int, j: int| 0 <= i < j < known.len() implies (#[trigger] known[i]).1 + 1 < (
    #[trigger] known[j]).0 by {
        assert(known[i].1.value() + 1 < known[j].0.value());
    }
    if exists|k: int| 0 <= k < known.len() && (#[trigger] known[k]).0 <= ip <= known[k].1 {
        let k = choose|k: int| 0 <= k < known.len() && (#[trigger] known[k]).0 <= ip <= known[k].1;
        assert(ranges::within(known[k], ip));
        let e = choose|e: int| 0 <= e < entries.len() && lists::lists_v4(#[trigger] entries[e], ip);
        lemma_entry_is_line(lines, entries[e]);
        assert(entries.contains(entries[e]));
        let i = choose|i: int| 0 <= i < lines.len() && text::trimmed(#[trigger] lines[i]) == entries[e];
        assert(line_holds_v4(lines[i], ip));
    }
    if exists|i: int| 0 <= i < lines.len() && line_holds_v4(#[trigger] lines[i], ip) {
        let i = choose|i: int| 0 <= i < lines.len() && line_holds_v4(#[trigger] lines[i], ip);
        let entry = text::trimmed(lines[i]);
        lemma_v4_prefix_starts(entry);
        lemma_entry_is_line(lines, entry);
        let e = choose|e: int| 0 <= e < entries.len() && entries[e] == entry;
        assert(lists::lists_v4(entries[e], ip));
        let k = choose|k: int| 0 <= k < known.len() && ranges::within(#[trigger] known[k], ip);
        assert(known[k].0 <= ip <= known[k].1);
    }
}

/// After a load of a readable file, the blocked IPv6 addresses are those that stand
/// alone on a line of it, white space round them aside.
pub proof fn law_blocked_v6(
    file: &str,
    lines: Seq<Seq<char>>,
    previous: Option<&Data>,
    ip: u128,
)
    requires
        are_lines(file@, lines),
    ensures
        lists::blocked_v6_after(Some(file), previous).contains(ip) <==> exists|i: int|
            0 <= i < lines.len() && address::ipv6_of(text::trimmed(#[trigger] lines[i])) == Some(ip),
{
    law_lines(file@, lines);
    let found = lists::entries(lines);
    if lists::blocked_v6_after(Some(file), previous).contains(ip) {
        let k = choose|k: int| 0 <= k < found.len() && address::ipv6_of(#[trigger] found[k]) == Some(ip);
        lemma_entry_is_line(lines, found[k]);
        assert(found.contains(found[k]));
    }
    if exists|i: int|
        0 <= i < lines.len() && address::ipv6_of(text::trimmed(#[trigger] lines[i])) == Some(ip) {
        let i = choose|i: int|
            0 <= i < lines.len() && address::ipv6_of(text::trimmed(#[trigger] lines[i])) == Some(ip);
        let entry = text::trimmed(lines[i]);
        lemma_ipv6_starts(entry);
        lemma_entry_is_line(lines, entry);
        let k = choose|k: int| 0 <= k < found.len() && found[k] == entry;
        assert(address::ipv6_of(found[k]) == Some(ip));
    }
}

/// Whether a line of the file is a prefix that holds `ip`.
pub open spec fn line_holds_v6(line: Seq<char>, ip: u128) -> bool {
    address::v6_prefix_of(text::trimmed(line)) matches Some((start, end)) && start <= ip <= end
}

/// After a load of a readable file, the rewritable IPv6 ranges are in order, with a
/// gap between any two, and hold the addresses that the prefixes on its lines hold
/// and no others.
pub proof fn law_rewritable_v6(
    file: &str,
    lines: Seq<Seq<char>>,
    previous: Option<&Data>,
    ip: u128,
)
    requires
        are_lines(file@, lines),
    ensures
        ({
            let known = lists::cf_v6_after(Some(file), previous);
            &&& forall|i: int| 0 <= i < known.len() ==> (#[trigger] known[i]).0 <= known[i].1
            &&& forall|i: int, j: int|
                0 <= i < j < known.len() ==> (#[trigger] known[i]).1 + 1 < (#[trigger] known[j]).0
            &&& (exists|k: int| 0 <= k < known.len() && (#[trigger] known[k]).0 <= ip <= known[k].1)
                <==> (exists|i: int| 0 <= i < lines.len() && line_holds_v6(#[trigger] lines[i], ip))
        }),
{
    law_lines(file@, lines);
    let entries = lists::entries(lines);
    let found = lists::v6_prefixes(entries);
    let known = ranges::merged(found);
    assert(known == lists::cf_v6_after(Some(file), previous));
    lists::lemma_v6_prefixes(entries, ip);
    ranges::law_merge_normalizes(found);
    assert(ranges::covers(known, ip) <==> ranges::covers(found, ip));
    assert forall|i: int| 0 <= i < known.len() implies (#[trigger] known[i]).0 <= known[i].1 by {
        assert(known[i].0.value() <= known[i].1.value());
    }
    assert forall|i: int, j: int| 0 <= i < j < known.len() implies (#[trigger] known[i]).1 + 1 < (
    #[trigger] known[j]).0 by {
        assert(known[i].1.value() + 1 < known[j].0.value());
    }
    if exists|k: int| 0 <= k < known.len() && (#[trigger] known[k]).0 <= ip <= known[k].1 {
        let k = choose|k: int| 0 <= k < known.len() && (#[trigger] known[k]).0 <= ip <= known[k].1;
        assert(ranges::within(known[k], ip));
        let e = choose|e: int| 0 <= e < entries.len() && lists::lists_v6(#[trigger] entries[e], ip);
        lemma_entry_is_line(lines, entries[e]);
        assert(entries.contains(entries[e]));
        let i = choose|i: int| 0 <= i < lines.len() && text::trimmed(#[trigger] lines[i]) == entries[e];
        assert(line_holds_v6(lines[i], ip));
    }
    if exists|i: int| 0 <= i < lines.len() && line_holds_v6(#[trigger] lines[i], ip) {
        let i = choose|i: int| 0 <= i < lines.len() && line_holds_v6(#[trigger] lines[i], ip);
        let entry = text::trimmed(lines[i]);
        lemma_v6_prefix_starts(entry);
        lemma_entry_is_line(lines, entry);
        let e = choose|e: int| 0 <= e < entries.len() && entries[e] == entry;
        assert(lists::lists_v6(entries[e], ip));
        let k = choose|k: int| 0 <= k < known.len() && ranges::within(#[trigger] known[k], ip);
        assert(known[k].0 <= ip <= known[k].1);
    }
}

/// A list file that cannot be read changes nothing; without any list before it there
/// is nothing blocked and nothing rewritable.
pub proof fn law_unreadable_lists_stay(previous: &Data)
    ensures
        lists::blocked_v4_after(None, Some(previous)) == previous.blocked_v4@,
        lists::blocked_v6_after(None, Some(previous)) == previous.blocked_v6@,
        lists::cf_v4_after(None, Some(previous)) == previous.cf_v4@,
        lists::cf_v6_after(None, Some(previous)) == previous.cf_v6@,
        lists::blocked_v4_after(None, None) == Set::<u32>::empty(),
        lists::blocked_v6_after(None, None) == Set::<u128>::empty(),
        lists::cf_v4_after(None, None) == Seq::<(u32, u32)>::empty(),
        lists::cf_v6_after(None, None) == Seq::<(u128, u128)>::empty(),
{
}

proof fn lemma_trimmed_between(s: Seq<char>, from: int, to: int)
    requires
        0 <= from < to <= s.len(),
        readings::blank(s, 0, from),
        readings::blank(s, to, s.len() as int),
        !text::is_space(s[from]),
        !text::is_space(s[to - 1]),
    ensures
        text::trimmed(s) == s.subrange(from, to),
{
    let left = text::trimmed(s);
    readings::law_trimming(s);
    let (f, t) = choose|f: int, t: int| readings::left_between(s, left, f, t);
    assert(!(from < f) && !(t <= from));
    assert(left[0] == s[f]);
    assert(left[left.len() - 1] == s[t - 1]);
    assert(!(f < from));
    assert(!(to - 1 < t - 1));
    assert(!(t - 1 < to - 1));
}

/// Whether `lower` is the letter `c` in lower case, or `c` itself where it is none
/// of A to Z.
pub open spec fn lower_of(c: char, lower: char) -> bool {
    if 'A' <= c <= 'Z' {
        lower as int == c as int + 32
    } else {
        lower == c
    }
}

/// Whether `domain` is `name`, letters in either case, with dots behind it and white
/// space round all of it.
pub open spec fn writes_name(domain: Seq<char>, name: Seq<char>, from: int, to: int) -> bool {
    &&& 0 <= from < from + name.len() <= to <= domain.len()
    &&& readings::blank(domain, 0, from)
    &&& readings::blank(domain, to, domain.len() as int)
    &&& !text::is_space(domain[from])
    &&& !text::is_space(domain[to - 1])
    &&& forall|i: int| 0 <= i < name.len() ==> lower_of(domain[from + i], #[trigger] name[i])
    &&& forall|k: int| from + name.len() <= k < to ==> #[trigger] domain[k] == '.'
    &&& name[name.len() - 1] != '.'
}

/// Whether `labels`, with dots between them, make up a name of at most 253 bytes, of
/// at least one byte and at most 63 each.
pub open spec fn are_name_labels(name: Seq<char>, labels: Seq<Seq<char>>) -> bool {
    &&& labels.len() > 0
    &&& name == text::joined(labels, '.')
    &&& utf8::encode_utf8(name).len() <= 253
    &&& forall|i: int|
        0 <= i < labels.len() ==> (#[trigger] labels[i]).len() > 0 && utf8::encode_utf8(
            labels[i],
        ).len() <= 63 && !labels[i].contains('.')
}

/// The form of a domain: without the white space round it and the dots behind it,
/// in lower case, provided that this is a name of at most 253 bytes whose labels have
/// one to 63 bytes.
pub proof fn law_domain_form(domain: Seq<char>, name: Seq<char>)
    ensures
        redirects::normalized(domain) == Some(name) <==> {
            &&& name.len() > 0
            &&& exists|labels: Seq<Seq<char>>| are_name_labels(name, labels)
            &&& exists|from: int, to: int| writes_name(domain, name, from, to)
        },
{
    let mid = text::trimmed(domain);
    let left = text::without_end_dots(mid);
    readings::law_end_dots(mid);
    if redirects::normalized(domain) == Some(name) {
        let labels = text::pieces(name, '.');
        text::lemma_pieces_free(name, '.');
        readings::law_cutting_and_joining(name, labels, '.');
        assert forall|i: int| 0 <= i < labels.len() implies (#[trigger] labels[i]).len() > 0
            && utf8::encode_utf8(labels[i]).len() <= 63 && !labels[i].contains('.') by {
            assert(redirects::valid_label(labels[i]));
        }
        assert(are_name_labels(name, labels));
        readings::law_trimming(domain);
        let (from, to) = choose|from: int, to: int| readings::left_between(domain, mid, from, to);
        assert(mid[0] == domain[from]);
        assert(mid[mid.len() - 1] == domain[to - 1]);
        assert forall|i: int| 0 <= i < name.len() implies lower_of(
            domain[from + i],
            #[trigger] name[i],
        ) by {
            readings::law_lower_case(left, i);
            assert(left[i] == mid[i] && mid[i] == domain[from + i]);
        }
        assert forall|k: int| from + name.len() <= k < to implies #[trigger] domain[k] == '.' by {
            assert(mid[k - from] == domain[k]);
        }
        readings::law_lower_case(left, left.len() - 1);
        assert(writes_name(domain, name, from, to));
    }
    if name.len() > 0 && (exists|labels: Seq<Seq<char>>| are_name_labels(name, labels)) && (exists|
        from: int,
        to: int,
    | writes_name(domain, name, from, to)) {
        let labels = choose|labels: Seq<Seq<char>>| are_name_labels(name, labels);
        let (from, to) = choose|from: int, to: int| writes_name(domain, name, from, to);
        lemma_trimmed_between(domain, from, to);
        let last = name.len() - 1;
        assert(mid[last] == domain[from + last]);
        assert(lower_of(domain[from + last], name[last]));
        if left.len() < name.len() {
            assert(mid[last] == '.');
        }
        if left.len() > name.len() {
            assert(left[left.len() - 1] == mid[left.len() - 1]);
            assert(domain[from + left.len() - 1] == '.');
        }
        assert forall|i: int| 0 <= i < name.len() implies text::lowered(left)[i]
            == #[trigger] name[i] by {
            readings::law_lower_case(left, i);
            assert(left[i] == mid[i]);
            assert(mid[i] == domain[from + i]);
            assert(lower_of(domain[from + i], name[i]));
            assert(text::lowered(left)[i] as int == name[i] as int);
        }
        assert(text::lowered(left) =~= name);
        assert(text::free_of(labels, '.'));
        text::lemma_pieces_of_joined(labels, '.');
        assert forall|i: int| 0 <= i < labels.len() implies redirects::valid_label(
            #[trigger] labels[i],
        ) by {
            assert(labels[i].len() > 0);
        }
    }
}

/// A rule DOMAIN=IP enters its address for its domain, beside the address of the
/// other family and the expiry that the domain has, and touches no other domain. A
/// domain or an address that is none is refused, the domain first.
pub proof fn law_rule(
    table: Map<Seq<char>, TestRedirect>,
    domain: Seq<char>,
    ip: Seq<char>,
    other: Seq<char>,
)
    requires
        !domain.contains('='),
    ensures
        ({
            let rule = domain + seq!['='] + ip;
            let after = redirects::table_with(table, rule);
            let fault = redirects::rule_fault(rule);
            &&& redirects::normalized(domain) is None ==> fault == Some(
                (ErrorKind::InvalidDomain, domain),
            ) && after == table
            &&& redirects::normalized(domain) matches Some(name) ==> {
                &&& address::ipv4_of(ip) is None && address::ipv6_of(ip) is None ==> fault == Some(
                    (ErrorKind::InvalidAddress, ip),
                )
                &&& address::ipv4_of(ip) is Some || address::ipv6_of(ip) is Some ==> fault is None
                &&& other != name ==> (after.contains_key(other) <==> table.contains_key(other))
                &&& other != name && table.contains_key(other) ==> after[other] == table[other]
                &&& after.contains_key(name)
                &&& after[name].v4 == (if address::ipv4_of(ip) is Some {
                    address::ipv4_of(ip)
                } else if table.contains_key(name) {
                    table[name].v4
                } else {
                    None
                })
                &&& after[name].v6 == (if address::ipv4_of(ip) is None && address::ipv6_of(
                    ip,
                ) is Some {
                    address::ipv6_of(ip)
                } else if table.contains_key(name) {
                    table[name].v6
                } else {
                    None
                })
                &&& after[name].expires_at == (if table.contains_key(name) {
                    table[name].expires_at
                } else {
                    None
                })
            }
        }),
{
    lemma_rule_parts(domain, ip);
}

/// What has no equals sign is no rule.
pub proof fn law_no_rule(table: Map<Seq<char>, TestRedirect>, rule: Seq<char>)
    requires
        !rule.contains('='),
    ensures
        redirects::rule_fault(rule) == Some((ErrorKind::InvalidRedirect, rule)),
        redirects::table_with(table, rule) == table,
{
    readings::law_first_place(rule, '=', 0);
}

pub proof fn lemma_rule_parts(domain: Seq<char>, ip: Seq<char>)
    requires
        !domain.contains('='),
    ensures
        redirects::rule_parts(domain + seq!['='] + ip) == Some((domain, ip)),
{
    let rule = domain + seq!['='] + ip;
    let at = domain.len() as int;
    assert forall|k: int| 0 <= k < at implies #[trigger] rule[k] != '=' by {
        assert(rule[k] == domain[k]);
        assert(domain.contains(domain[k]));
    }
    readings::law_first_place(rule, '=', at);
    assert(rule[at] == '=');
    assert(rule.take(at) =~= domain);
    assert(rule.skip(at + 1) =~= ip);
}

pub proof fn lemma_rule_spelled(rule: Seq<char>)
    requires
        redirects::rule_parts(rule) is Some,
    ensures
        ({
            let (domain, ip) = redirects::rule_parts(rule)->0;
            rule == domain + seq!['='] + ip && !domain.contains('=')
        }),
{
    let at = text::place_of(rule, '=')->0;
    readings::law_first_place(rule, '=', at);
    let domain = rule.take(at);
    assert(rule =~= domain + seq!['='] + rule.skip(at + 1));
    if domain.contains('=') {
        let k = choose|k: int| 0 <= k < domain.len() && domain[k] == '=';
        assert(rule[k] == '=');
    }
}

/// Whether a line holds words, that is, is not empty and no comment.
pub open spec fn holds_words(line: Seq<char>, count: nat) -> bool {
    let rest = text::trimmed(line);
    rest.len() > 0 && rest[0] != '#' && text::words(rest).len() == count
}

/// Whether a line is the rule DOMAIN=IP and an expiry that is not past, and no more.
pub open spec fn is_rule_in_time(
    line: Seq<char>,
    expiry: Option<Timestamp>,
    now: Timestamp,
    domain: Seq<char>,
    ip: Seq<char>,
) -> bool {
    &&& holds_words(line, 2)
    &&& text::words(text::trimmed(line))[0] == domain + seq!['='] + ip
    &&& !domain.contains('=')
    &&& expiry matches Some(expires) && !expires.not_after(now)
}

/// What becomes of a line of the file of temporary redirects: a single word lacks an
/// expiry, a third is too much, an expiry must be read and must not be past, and the
/// rule must have a domain and an address.
pub proof fn law_line_outcome(
    line: Seq<char>,
    expiry: Option<Timestamp>,
    now: Timestamp,
    domain: Seq<char>,
    ip: Seq<char>,
    field: Seq<char>,
)
    ensures
        ({
            let outcome = redirects::line_outcome(line, expiry, now);
            let rest = text::trimmed(line);
            &&& rest.len() == 0 || rest[0] == '#' ==> outcome == LineOutcome::Blank
            &&& holds_words(line, 1) <==> outcome == LineOutcome::MissingExpiry
            &&& (exists|count: nat| count > 2 && holds_words(line, count)) <==> outcome
                == LineOutcome::ExtraFields
            &&& holds_words(line, 2) && expiry is None <==> outcome == LineOutcome::BadExpiry
            &&& holds_words(line, 2) && expiry is Some && (expiry->0).not_after(now) <==> outcome
                == LineOutcome::Expired
            &&& is_rule_in_time(line, expiry, now, domain, ip) ==> {
                if redirects::normalized(domain) is None {
                    outcome == LineOutcome::Refused(ErrorKind::InvalidDomain)
                } else if address::ipv4_of(ip) is None && address::ipv6_of(ip) is None {
                    outcome == LineOutcome::Refused(ErrorKind::InvalidAddress)
                } else {
                    outcome == LineOutcome::Added
                }
            }
            &&& redirects::expiry_field(line) == Some(field) <==> holds_words(line, 2)
                && text::words(rest)[1] == field
        }),
{
    let rest = text::trimmed(line);
    let words = text::words(rest);
    if rest.len() > 0 && rest[0] != '#' && words.len() > 2 {
        assert(holds_words(line, words.len()));
    }
    if is_rule_in_time(line, expiry, now, domain, ip) {
        lemma_rule_parts(domain, ip);
    }
}

/// Whether a line in time pins an IPv4 address for `name`.
#[verifier::opaque]
pub open spec fn pins_v4(
    line: Seq<char>,
    expiry: Option<Timestamp>,
    now: Timestamp,
    name: Seq<char>,
    address: u32,
) -> bool {
    exists|domain: Seq<char>, ip: Seq<char>| #[trigger]
        is_rule_in_time(line, expiry, now, domain, ip) && redirects::normalized(domain) == Some(name)
            && address::ipv4_of(ip) == Some(address)
}

/// Whether a line in time pins an IPv6 address for `name`.
#[verifier::opaque]
pub open spec fn pins_v6(
    line: Seq<char>,
    expiry: Option<Timestamp>,
    now: Timestamp,
    name: Seq<char>,
    address: u128,
) -> bool {
    exists|domain: Seq<char>, ip: Seq<char>| #[trigger]
        is_rule_in_time(line, expiry, now, domain, ip) && redirects::normalized(domain) == Some(name)
            && address::ipv4_of(ip) is None && address::ipv6_of(ip) == Some(address)
}

/// Whether a line in time pins any address for `name`.
#[verifier::opaque]
pub open spec fn pins(
    line: Seq<char>,
    expiry: Option<Timestamp>,
    now: Timestamp,
    name: Seq<char>,
) -> bool {
    ||| exists|address: u32| pins_v4(line, expiry, now, name, address)
    ||| exists|address: u128| pins_v6(line, expiry, now, name, address)
}

proof fn lemma_line_pins(
    table: Map<Seq<char>, TestRedirect>,
    line: Seq<char>,
    expiry: Option<Timestamp>,
    now: Timestamp,
    name: Seq<char>,
)
    ensures
        ({
            let before = redirects::redirect_or_none(table, name);
            let after = redirects::redirect_or_none(
                redirects::table_after_line(table, line, expiry, now),
                name,
            );
            &&& forall|v4: u32| #[trigger]
                pins_v4(line, expiry, now, name, v4) ==> after.v4 == Some(v4) && after.v6
                    == before.v6 && after.expires_at == expiry && expiry is Some
            &&& forall|v6: u128| #[trigger]
                pins_v6(line, expiry, now, name, v6) ==> after.v6 == Some(v6) && after.v4
                    == before.v4 && after.expires_at == expiry && expiry is Some
            &&& !pins(line, expiry, now, name) ==> after == before
            &&& forall|v4: u32, v6: u128|
                !(#[trigger] pins_v4(line, expiry, now, name, v4) && #[trigger] pins_v6(
                    line,
                    expiry,
                    now,
                    name,
                    v6,
                ))
        }),
{
    reveal(pins_v4);
    reveal(pins_v6);
    reveal(pins);
    let outcome = redirects::line_outcome(line, expiry, now);
    let rule = text::words(text::trimmed(line))[0];
    assert forall|domain: Seq<char>, ip: Seq<char>|
        is_rule_in_time(line, expiry, now, domain, ip) implies redirects::rule_parts(rule) == Some(
        (domain, ip),
    ) by {
        lemma_rule_parts(domain, ip);
    }
    if outcome is Refused {
        redirects::law_refused_line_sets_nothing(table, line, expiry, now, name);
    } else if outcome == LineOutcome::Added {
        redirects::law_line_in_force_merges(table, line, expiry, now);
        lemma_rule_spelled(rule);
        let (domain, ip) = redirects::rule_parts(rule)->0;
        assert(is_rule_in_time(line, expiry, now, domain, ip));
        if redirects::normalized(domain) == Some(name) {
            if let Some(v4) = address::ipv4_of(ip) {
                assert(pins_v4(line, expiry, now, name, v4));
            } else {
                assert(pins_v6(line, expiry, now, name, address::ipv6_of(ip)->0));
            }
        }
    }
}

/// The IPv4 address that a line in time pins for `name`.
spec fn hit_v4(
    line: Seq<char>,
    expiry: Option<Timestamp>,
    now: Timestamp,
    name: Seq<char>,
) -> Option<u32> {
    if exists|address: u32| pins_v4(line, expiry, now, name, address) {
        Some(choose|address: u32| pins_v4(line, expiry, now, name, address))
    } else {
        None
    }
}

/// The IPv6 address that a line in time pins for `name`.
spec fn hit_v6(
    line: Seq<char>,
    expiry: Option<Timestamp>,
    now: Timestamp,
    name: Seq<char>,
) -> Option<u128> {
    if exists|address: u128| pins_v6(line, expiry, now, name, address) {
        Some(choose|address: u128| pins_v6(line, expiry, now, name, address))
    } else {
        None
    }
}

/// The expiry that a line in time sets for `name`.
spec fn hit_expiry(
    line: Seq<char>,
    expiry: Option<Timestamp>,
    now: Timestamp,
    name: Seq<char>,
) -> Option<Timestamp> {
    if pins(line, expiry, now, name) {
        expiry
    } else {
        None
    }
}

/// What is known after `hit`.
pub open spec fn last_of<T>(hit: Option<T>, before: Option<T>) -> Option<T> {
    if hit is Some {
        hit
    } else {
        before
    }
}

proof fn lemma_hits(
    table: Map<Seq<char>, TestRedirect>,
    line: Seq<char>,
    expiry: Option<Timestamp>,
    now: Timestamp,
    name: Seq<char>,
)
    ensures
        ({
            let before = redirects::redirect_or_none(table, name);
            let after = redirects::redirect_or_none(
                redirects::table_after_line(table, line, expiry, now),
                name,
            );
            &&& after.v4 == last_of(hit_v4(line, expiry, now, name), before.v4)
            &&& after.v6 == last_of(hit_v6(line, expiry, now, name), before.v6)
            &&& after.expires_at == last_of(hit_expiry(line, expiry, now, name), before.expires_at)
        }),
        forall|address: u32| #[trigger]
            pins_v4(line, expiry, now, name, address) <==> hit_v4(line, expiry, now, name) == Some(
                address,
            ),
        forall|address: u128| #[trigger]
            pins_v6(line, expiry, now, name, address) <==> hit_v6(line, expiry, now, name) == Some(
                address,
            ),
        pins(line, expiry, now, name) ==> expiry is Some,
{
    lemma_line_pins(table, line, expiry, now, name);
    reveal(pins);
    if let Some(v4) = hit_v4(line, expiry, now, name) {
        assert(pins_v4(line, expiry, now, name, v4));
    }
    if let Some(v6) = hit_v6(line, expiry, now, name) {
        assert(pins_v6(line, expiry, now, name, v6));
    }
}

/// Whether the hit at `i` is the last one before `count`, and it is `value`.
spec fn last_hit<T>(hit: spec_fn(int) -> Option<T>, i: int, count: int, value: T) -> bool {
    0 <= i < count && hit(i) == Some(value) && forall|j: int| i < j < count ==> #[trigger] hit(j) is None
}

proof fn lemma_last<T>(
    hit: spec_fn(int) -> Option<T>,
    state: spec_fn(int) -> Option<T>,
    count: int,
    value: T,
)
    requires
        0 <= count,
        state(0) is None,
        forall|k: int| 0 <= k < count ==> #[trigger] state(k + 1) == last_of(hit(k), state(k)),
    ensures
        state(count) == Some(value) <==> exists|i: int| last_hit(hit, i, count, value),
    decreases count,
{
    if count > 0 {
        let last = count - 1;
        lemma_last(hit, state, last, value);
        assert(state(last + 1) == last_of(hit(last), state(last)));
        if state(count) == Some(value) {
            if hit(last) is Some {
                assert(last_hit(hit, last, count, value));
            } else {
                let i = choose|i: int| last_hit(hit, i, last, value);
                assert(last_hit(hit, i, count, value));
            }
        }
        if exists|i: int| last_hit(hit, i, count, value) {
            let i = choose|i: int| last_hit(hit, i, count, value);
            if i < last {
                assert(hit(last) is None);
                assert(last_hit(hit, i, last, value));
            }
        }
    }
}

/// Of the lines of the file of temporary redirects, the last one in time that pins an
/// IPv4 address for a domain says which one it has.
pub proof fn law_last_line_pins_v4(
    lines: Seq<Seq<char>>,
    expiries: Seq<Option<Timestamp>>,
    now: Timestamp,
    count: nat,
    name: Seq<char>,
    address: u32,
)
    requires
        lines.len() == expiries.len(),
        count <= lines.len(),
    ensures
        ({
            let table = redirects::table_after(lines, expiries, now, count);
            table.contains_key(name) && table[name].v4 == Some(address) <==> exists|i: int|
                0 <= i < count && pins_v4(#[trigger] lines[i], expiries[i], now, name, address)
                    && forall|j: int, other: u32|
                    i < j < count ==> !#[trigger] pins_v4(lines[j], expiries[j], now, name, other)
        }),
{
    let hit = |k: int| hit_v4(lines[k], expiries[k], now, name);
    let state = |k: int|
        redirects::redirect_or_none(
            redirects::table_after(lines, expiries, now, k as nat),
            name,
        ).v4;
    assert forall|k: int| 0 <= k < count implies #[trigger] state(k + 1) == last_of(
        hit(k),
        state(k),
    ) by {
        let before = redirects::table_after(lines, expiries, now, k as nat);
        lemma_hits(before, lines[k], expiries[k], now, name);
    }
    lemma_last(hit, state, count as int, address);
    assert forall|k: int, some: u32| 0 <= k < count implies (#[trigger] pins_v4(
        lines[k],
        expiries[k],
        now,
        name,
        some,
    ) <==> hit(k) == Some(some)) by {
        lemma_hits(Map::empty(), lines[k], expiries[k], now, name);
    }
    if exists|i: int| last_hit(hit, i, count as int, address) {
        let i = choose|i: int| last_hit(hit, i, count as int, address);
        assert(pins_v4(lines[i], expiries[i], now, name, address));
        assert forall|j: int, other: u32| i < j < count implies !#[trigger] pins_v4(
            lines[j],
            expiries[j],
            now,
            name,
            other,
        ) by {
            assert(hit(j) is None);
        }
    }
    if exists|i: int|
        0 <= i < count && pins_v4(#[trigger] lines[i], expiries[i], now, name, address) && forall|
            j: int,
            other: u32,
        |
            i < j < count ==> !#[trigger] pins_v4(lines[j], expiries[j], now, name, other) {
        let i = choose|i: int|
            0 <= i < count && pins_v4(#[trigger] lines[i], expiries[i], now, name, address)
                && forall|j: int, other: u32|
                i < j < count ==> !#[trigger] pins_v4(lines[j], expiries[j], now, name, other);
        assert forall|j: int| i < j < count implies #[trigger] hit(j) is None by {
            if hit(j) is Some {
                assert(pins_v4(lines[j], expiries[j], now, name, hit(j)->0));
            }
        }
        assert(last_hit(hit, i, count as int, address));
    }
}

/// Of the lines of the file of temporary redirects, the last one in time that pins an
/// IPv6 address for a domain says which one it has.
pub proof fn law_last_line_pins_v6(
    lines: Seq<Seq<char>>,
    expiries: Seq<Option<Timestamp>>,
    now: Timestamp,
    count: nat,
    name: Seq<char>,
    address: u128,
)
    requires
        lines.len() == expiries.len(),
        count <= lines.len(),
    ensures
        ({
            let table = redirects::table_after(lines, expiries, now, count);
            table.contains_key(name) && table[name].v6 == Some(address) <==> exists|i: int|
                0 <= i < count && pins_v6(#[trigger] lines[i], expiries[i], now, name, address)
                    && forall|j: int, other: u128|
                    i < j < count ==> !#[trigger] pins_v6(lines[j], expiries[j], now, name, other)
        }),
{
    let hit = |k: int| hit_v6(lines[k], expiries[k], now, name);
    let state = |k: int|
        redirects::redirect_or_none(
            redirects::table_after(lines, expiries, now, k as nat),
            name,
        ).v6;
    assert forall|k: int| 0 <= k < count implies #[trigger] state(k + 1) == last_of(
        hit(k),
        state(k),
    ) by {
        let before = redirects::table_after(lines, expiries, now, k as nat);
        lemma_hits(before, lines[k], expiries[k], now, name);
    }
    lemma_last(hit, state, count as int, address);
    assert forall|k: int, some: u128| 0 <= k < count implies (#[trigger] pins_v6(
        lines[k],
        expiries[k],
        now,
        name,
        some,
    ) <==> hit(k) == Some(some)) by {
        lemma_hits(Map::empty(), lines[k], expiries[k], now, name);
    }
    if exists|i: int| last_hit(hit, i, count as int, address) {
        let i = choose|i: int| last_hit(hit, i, count as int, address);
        assert(pins_v6(lines[i], expiries[i], now, name, address));
        assert forall|j: int, other: u128| i < j < count implies !#[trigger] pins_v6(
            lines[j],
            expiries[j],
            now,
            name,
            other,
        ) by {
            assert(hit(j) is None);
        }
    }
    if exists|i: int|
        0 <= i < count && pins_v6(#[trigger] lines[i], expiries[i], now, name, address) && forall|
            j: int,
            other: u128,
        |
            i < j < count ==> !#[trigger] pins_v6(lines[j], expiries[j], now, name, other) {
        let i = choose|i: int|
            0 <= i < count && pins_v6(#[trigger] lines[i], expiries[i], now, name, address)
                && forall|j: int, other: u128|
                i < j < count ==> !#[trigger] pins_v6(lines[j], expiries[j], now, name, other);
        assert forall|j: int| i < j < count implies #[trigger] hit(j) is None by {
            if hit(j) is Some {
                assert(pins_v6(lines[j], expiries[j], now, name, hit(j)->0));
            }
        }
        assert(last_hit(hit, i, count as int, address));
    }
}

/// The expiry of a domain is that of the last line in time that pins an address of
/// either family for it.
pub proof fn law_last_line_sets_expiry(
    lines: Seq<Seq<char>>,
    expiries: Seq<Option<Timestamp>>,
    now: Timestamp,
    count: nat,
    name: Seq<char>,
    expires: Timestamp,
)
    requires
        lines.len() == expiries.len(),
        count <= lines.len(),
    ensures
        ({
            let table = redirects::table_after(lines, expiries, now, count);
            table.contains_key(name) && table[name].expires_at == Some(expires) <==> exists|i: int|
                0 <= i < count && pins(#[trigger] lines[i], expiries[i], now, name) && expiries[i]
                    == Some(expires) && forall|j: int|
                    i < j < count ==> !pins(#[trigger] lines[j], expiries[j], now, name)
        }),
{
    let hit = |k: int| hit_expiry(lines[k], expiries[k], now, name);
    let state = |k: int|
        redirects::redirect_or_none(
            redirects::table_after(lines, expiries, now, k as nat),
            name,
        ).expires_at;
    assert forall|k: int| 0 <= k < count implies #[trigger] state(k + 1) == last_of(
        hit(k),
        state(k),
    ) by {
        let before = redirects::table_after(lines, expiries, now, k as nat);
        lemma_hits(before, lines[k], expiries[k], now, name);
    }
    lemma_last(hit, state, count as int, expires);
    assert forall|k: int| 0 <= k < count implies (pins(#[trigger] lines[k], expiries[k], now, name)
        <==> hit(k) is Some) by {
        lemma_hits(Map::empty(), lines[k], expiries[k], now, name);
    }
    if exists|i: int| last_hit(hit, i, count as int, expires) {
        let i = choose|i: int| last_hit(hit, i, count as int, expires);
        assert(pins(lines[i], expiries[i], now, name));
        assert forall|j: int| i < j < count implies !pins(
            #[trigger] lines[j],
            expiries[j],
            now,
            name,
        ) by {
            assert(hit(j) is None);
        }
    }
    if exists|i: int|
        0 <= i < count && pins(#[trigger] lines[i], expiries[i], now, name) && expiries[i] == Some(
            expires,
        ) && forall|j: int| i < j < count ==> !pins(#[trigger] lines[j], expiries[j], now, name) {
        let i = choose|i: int|
            0 <= i < count && pins(#[trigger] lines[i], expiries[i], now, name) && expiries[i]
                == Some(expires) && forall|j: int|
                i < j < count ==> !pins(#[trigger] lines[j], expiries[j], now, name);
        assert forall|j: int| i < j < count implies #[trigger] hit(j) is None by {
            assert(!pins(lines[j], expiries[j], now, name));
        }
        assert(last_hit(hit, i, count as int, expires));
    }
}

} // verus!
