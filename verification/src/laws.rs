//! What the proxy does to answers, stated on the bytes that come and go.

use crate::bytes;
use crate::effects;
use crate::evasion;
use crate::evasion::Data;
use crate::layout;
use crate::proxy;
use crate::proxy::App;
use crate::ranges;
use crate::redirects::{TestRedirect, Timestamp};
use crate::rewrite;
use crate::slots;
use crate::slots::Slot;
use crate::wire;
use crate::wire::Record;
use vstd::prelude::*;

verus! {

/// Whether the lists of ranges are in order, with a gap between any two ranges.
pub open spec fn tidy(data: Data) -> bool {
    &&& forall|i: int|
        0 <= i < data.cf_v4@.len() ==> (#[trigger] data.cf_v4@[i]).0 <= data.cf_v4@[i].1
    &&& forall|i: int, j: int|
        0 <= i < j < data.cf_v4@.len() ==> (#[trigger] data.cf_v4@[i]).1 + 1 < (
        #[trigger] data.cf_v4@[j]).0
    &&& forall|i: int|
        0 <= i < data.cf_v6@.len() ==> (#[trigger] data.cf_v6@[i]).0 <= data.cf_v6@[i].1
    &&& forall|i: int, j: int|
        0 <= i < j < data.cf_v6@.len() ==> (#[trigger] data.cf_v6@[i]).1 + 1 < (
        #[trigger] data.cf_v6@[j]).0
}

/// Whether two IPv4 addresses lie in one of the ranges together.
pub open spec fn share_range_v4(data: Data, a: int, b: int) -> bool {
    exists|k: int|
        0 <= k < data.cf_v4@.len() && (#[trigger] data.cf_v4@[k]).0 <= a <= data.cf_v4@[k].1
            && data.cf_v4@[k].0 <= b <= data.cf_v4@[k].1
}

/// Whether two IPv6 addresses lie in one of the ranges together.
pub open spec fn share_range_v6(data: Data, a: int, b: int) -> bool {
    exists|k: int|
        0 <= k < data.cf_v6@.len() && (#[trigger] data.cf_v6@[k]).0 <= a <= data.cf_v6@[k].1
            && data.cf_v6@[k].0 <= b <= data.cf_v6@[k].1
}

/// How far two addresses are apart.
pub open spec fn distance(a: int, b: int) -> int {
    if a < b {
        b - a
    } else {
        a - b
    }
}

/// Whether `other` may stand in for the IPv4 address `ip`.
pub open spec fn stands_in_v4(data: Data, ip: int, other: int) -> bool {
    &&& share_range_v4(data, ip, other)
    &&& 0 < distance(ip, other) < 65536
    &&& 1 <= other % 256 <= 254
    &&& !data.blocked_v4@.contains(other as u32)
}

/// Whether `other` may stand in for the IPv6 address `ip`.
pub open spec fn stands_in_v6(data: Data, ip: int, other: int) -> bool {
    &&& share_range_v6(data, ip, other)
    &&& 0 < distance(ip, other) < 1024
    &&& !data.blocked_v6@.contains(other as u128)
}

/// Whether `a` is nearer to `ip` than `b`, or as near and above it.
pub open spec fn nearer(ip: int, a: int, b: int) -> bool {
    distance(ip, a) < distance(ip, b) || (distance(ip, a) == distance(ip, b) && a > b)
}

/// Whether `after` is what becomes of the IPv4 address `before` where no redirect
/// pins it. A blocked one for which an address may stand in moves to the nearest
/// of these, those of its own block of 256 first; any other stays.
pub open spec fn moved_v4(data: Data, before: int, after: int) -> bool {
    if data.blocked_v4@.contains(before as u32) && exists|c: int| #[trigger]
        stands_in_v4(data, before, c) {
        &&& stands_in_v4(data, before, after)
        &&& forall|c: int| #[trigger]
            stands_in_v4(data, before, c) && c != after ==> if (c / 256 == before / 256) == (after
                / 256 == before / 256) {
                nearer(before, after, c)
            } else {
                after / 256 == before / 256
            }
    } else {
        after == before
    }
}

/// Whether `after` is what becomes of the IPv6 address `before` where no redirect
/// pins it. A blocked one for which an address may stand in moves to the nearest
/// of these; any other stays.
pub open spec fn moved_v6(data: Data, before: int, after: int) -> bool {
    if data.blocked_v6@.contains(before as u128) && exists|c: int| #[trigger]
        stands_in_v6(data, before, c) {
        &&& stands_in_v6(data, before, after)
        &&& forall|c: int| #[trigger]
            stands_in_v6(data, before, c) && c != after ==> nearer(before, after, c)
    } else {
        after == before
    }
}

/// Whether a question of this type, answered with success, is emptied under the
/// redirect: it pins IPv4 alone, and the question is for AAAA, SVCB or HTTPS.
pub open spec fn empties(p: Seq<u8>, redirect: Option<TestRedirect>) -> bool {
    &&& redirect matches Some(redirect)
    &&& redirect.v4 is Some
    &&& redirect.v6 is None
    &&& exists|records: Seq<Record>| #[trigger] layout::is_message(p, records)
    &&& exists|end: int| #[trigger]
        layout::is_name(p, 12, end) && end + 4 <= p.len() && (layout::u16_at(p, end) == 28
            || layout::u16_at(p, end) == 64 || layout::u16_at(p, end) == 65)
    &&& p[3] % 16 == 0
    &&& layout::u16_at(p, 6) > 0
}

proof fn lemma_empties(p: Seq<u8>, redirect: Option<TestRedirect>)
    requires
        p.len() <= usize::MAX,
    ensures
        proxy::bypasses(p, redirect) <==> empties(p, redirect),
{
    if proxy::bypasses(p, redirect) {
        let records = wire::records_of(p)->0;
        let end = wire::name_end(p, 12)->0;
        layout::law_records_are_those_of_the_message(p, records);
        layout::law_name_extent(p, 12, end);
        wire::lemma_name_end_bounds(p, 12);
        layout::law_two_bytes(p, end);
        layout::law_two_bytes(p, 6);
        assert(layout::is_message(p, records));
        assert(layout::is_name(p, 12, end));
    }
    if empties(p, redirect) {
        let records = choose|records: Seq<Record>| #[trigger] layout::is_message(p, records);
        let end = choose|end: int| #[trigger]
            layout::is_name(p, 12, end) && end + 4 <= p.len() && (layout::u16_at(p, end) == 28
                || layout::u16_at(p, end) == 64 || layout::u16_at(p, end) == 65);
        layout::law_records_are_those_of_the_message(p, records);
        layout::law_name_extent(p, 12, end);
        wire::lemma_name_end_bounds(p, 12);
        layout::law_two_bytes(p, end);
        layout::law_two_bytes(p, 6);
    }
}

/// A message that is not emptied keeps its length, its counts and all its records;
/// what is not laid out as a message passes as it is.
pub proof fn law_only_some_answers_are_emptied(
    app: App,
    p: Seq<u8>,
    records: Seq<Record>,
    now: Timestamp,
)
    requires
        p.len() <= usize::MAX,
        !empties(p, app.redirect(p, now)),
        layout::is_message(p, records),
    ensures
        app.processed(p, now).len() == p.len(),
        forall|k: int| 0 <= k < 12 && k != 3 ==> #[trigger] app.processed(p, now)[k] == p[k],
        layout::is_message(app.processed(p, now), records),
{
    let redirect = app.redirect(p, now);
    lemma_empties(p, redirect);
    layout::law_records_are_those_of_the_message(p, records);
    effects::law_rewrite_keeps_records(p, app.lists(), redirect, app.rewrite_ttl);
    effects::law_header_and_questions_stay(p, app.lists(), redirect, app.rewrite_ttl);
    layout::law_records_are_those_of_the_message(app.processed(p, now), records);
}

/// An answer is emptied for questions of the types 28, 64 and 65 alone: any other
/// question gets a message of the same length, with the same counts and with all
/// its records.
pub proof fn law_other_questions_keep_their_records(
    app: App,
    p: Seq<u8>,
    records: Seq<Record>,
    now: Timestamp,
    end: int,
)
    requires
        p.len() <= usize::MAX,
        layout::is_message(p, records),
        layout::is_name(p, 12, end),
        layout::u16_at(p, end) != 28,
        layout::u16_at(p, end) != 64,
        layout::u16_at(p, end) != 65,
    ensures
        app.processed(p, now).len() == p.len(),
        forall|k: int| 4 <= k < 12 ==> #[trigger] app.processed(p, now)[k] == p[k],
        layout::is_message(app.processed(p, now), records),
{
    let redirect = app.redirect(p, now);
    if empties(p, redirect) {
        let other = choose|other: int| #[trigger]
            layout::is_name(p, 12, other) && other + 4 <= p.len() && (layout::u16_at(p, other) == 28
                || layout::u16_at(p, other) == 64 || layout::u16_at(p, other) == 65);
        layout::law_name_extent(p, 12, other);
        layout::law_name_extent(p, 12, end);
    }
    law_only_some_answers_are_emptied(app, p, records, now);
}

/// What is not laid out as a message passes as it is, and counts for nothing.
pub proof fn law_no_message_passes(app: App, p: Seq<u8>, now: Timestamp)
    requires
        p.len() <= usize::MAX,
        forall|records: Seq<Record>| !#[trigger] layout::is_message(p, records),
    ensures
        app.processed(p, now) == p,
        app.processed_count(p, now) == 0,
{
    if wire::records_of(p) is Some {
        layout::law_records_are_those_of_the_message(p, wire::records_of(p)->0);
        assert(layout::is_message(p, wire::records_of(p)->0));
    }
}

proof fn lemma_range_v4(data: Data, ip: u32, other: int)
    requires
        tidy(data),
    ensures
        share_range_v4(data, ip as int, other) <==> (ranges::range_of(data.cf_v4@, ip) matches Some(
            range,
        ) && range.0 <= other <= range.1),
        ranges::range_of(data.cf_v4@, ip) is Some <==> exists|k: int|
            0 <= k < data.cf_v4@.len() && (#[trigger] data.cf_v4@[k]).0 <= ip <= data.cf_v4@[k].1,
{
    let list = data.cf_v4@;
    assert(ranges::by_start(list)) by {
        assert forall|i: int, j: int| 0 <= i <= j < list.len() implies ranges::Address::value(
            (#[trigger] list[i]).0,
        ) <= ranges::Address::value((#[trigger] list[j]).0) by {
        }
    }
    ranges::law_lookup_is_membership(list, ip);
    if ranges::range_of(list, ip) is Some {
        let range = ranges::range_of(list, ip)->0;
        let k = choose|k: int| 0 <= k < list.len() && list[k] == range;
        assert(list[k].0 <= ip <= list[k].1);
        assert forall|j: int| 0 <= j < list.len() && (#[trigger] list[j]).0 <= ip
            <= list[j].1 implies j == k by {
        }
    } else {
        assert forall|j: int| 0 <= j < list.len() implies !((#[trigger] list[j]).0 <= ip
            <= list[j].1) by {
            if list[j].0 <= ip <= list[j].1 {
                assert(ranges::within(list[j], ip));
            }
        }
    }
}

proof fn lemma_range_v6(data: Data, ip: u128, other: int)
    requires
        tidy(data),
    ensures
        share_range_v6(data, ip as int, other) <==> (ranges::range_of(data.cf_v6@, ip) matches Some(
            range,
        ) && range.0 <= other <= range.1),
        ranges::range_of(data.cf_v6@, ip) is Some <==> exists|k: int|
            0 <= k < data.cf_v6@.len() && (#[trigger] data.cf_v6@[k]).0 <= ip <= data.cf_v6@[k].1,
{
    let list = data.cf_v6@;
    assert(ranges::by_start(list)) by {
        assert forall|i: int, j: int| 0 <= i <= j < list.len() implies ranges::Address::value(
            (#[trigger] list[i]).0,
        ) <= ranges::Address::value((#[trigger] list[j]).0) by {
        }
    }
    ranges::law_lookup_is_membership(list, ip);
    if ranges::range_of(list, ip) is Some {
        let range = ranges::range_of(list, ip)->0;
        let k = choose|k: int| 0 <= k < list.len() && list[k] == range;
        assert(list[k].0 <= ip <= list[k].1);
        assert forall|j: int| 0 <= j < list.len() && (#[trigger] list[j]).0 <= ip
            <= list[j].1 implies j == k by {
        }
    } else {
        assert forall|j: int| 0 <= j < list.len() implies !((#[trigger] list[j]).0 <= ip
            <= list[j].1) by {
            if list[j].0 <= ip <= list[j].1 {
                assert(ranges::within(list[j], ip));
            }
        }
    }
}

proof fn lemma_first_v4(
    ip: u32,
    range: (u32, u32),
    blocked: Set<u32>,
    same_block: bool,
    k: nat,
    limit: nat,
)
    requires
        0 < k,
    ensures
        match evasion::nearest_v4(ip, range, blocked, same_block, k, limit) {
            Some(found) => {
                &&& evasion::free_v4(range, blocked, found as int)
                &&& k <= distance(ip as int, found as int) < limit
                &&& same_block ==> found as int / 256 == ip as int / 256
                &&& forall|c: int|
                    #![trigger evasion::free_v4(range, blocked, c)]
                    evasion::free_v4(range, blocked, c) && k <= distance(ip as int, c) && c != found
                        && (same_block ==> c / 256 == ip as int / 256) ==> nearer(
                        ip as int,
                        found as int,
                        c,
                    )
            },
            None => forall|c: int|
                #![trigger evasion::free_v4(range, blocked, c)]
                k <= distance(ip as int, c) < limit && (same_block ==> c / 256 == ip as int / 256)
                    ==> !evasion::free_v4(range, blocked, c),
        },
    decreases limit - k,
{
    if k < limit {
        lemma_first_v4(ip, range, blocked, same_block, k + 1, limit);
    }
}

proof fn lemma_first_v6(ip: u128, range: (u128, u128), blocked: Set<u128>, k: nat, limit: nat)
    requires
        0 < k,
    ensures
        match evasion::nearest_v6(ip, range, blocked, k, limit) {
            Some(found) => {
                &&& evasion::free_v6(range, blocked, found as int)
                &&& k <= distance(ip as int, found as int) < limit
                &&& forall|c: int|
                    #![trigger evasion::free_v6(range, blocked, c)]
                    evasion::free_v6(range, blocked, c) && k <= distance(ip as int, c) && c != found
                        ==> nearer(ip as int, found as int, c)
            },
            None => forall|c: int|
                #![trigger evasion::free_v6(range, blocked, c)]
                k <= distance(ip as int, c) < limit ==> !evasion::free_v6(range, blocked, c),
        },
    decreases limit - k,
{
    if k < limit {
        lemma_first_v6(ip, range, blocked, k + 1, limit);
    }
}

proof fn lemma_moved_v4(data: Data, ip: u32)
    requires
        tidy(data),
    ensures
        moved_v4(
            data,
            ip as int,
            match data.replacement_v4(ip) {
                Some(found) => found as int,
                None => ip as int,
            },
        ),
{
    let blocked = data.blocked_v4@;
    assert forall|c: int| #[trigger] stands_in_v4(data, ip as int, c) implies (ranges::range_of(
        data.cf_v4@,
        ip,
    ) matches Some(range) && evasion::free_v4(range, blocked, c)) by {
        lemma_range_v4(data, ip, c);
    }
    if ranges::range_of(data.cf_v4@, ip) is Some {
        let range = ranges::range_of(data.cf_v4@, ip)->0;
        ranges::lemma_range_of_within(data.cf_v4@, ip);
        lemma_first_v4(ip, range, blocked, true, 1, 255);
        lemma_first_v4(ip, range, blocked, false, 1, evasion::wide_limit(range));
        if let Some(found) = evasion::neighbour_v4(ip, data.cf_v4@, blocked) {
            lemma_range_v4(data, ip, found as int);
            assert(stands_in_v4(data, ip as int, found as int));
        }
    }
}

proof fn lemma_moved_v6(data: Data, ip: u128)
    requires
        tidy(data),
    ensures
        moved_v6(
            data,
            ip as int,
            match data.replacement_v6(ip) {
                Some(found) => found as int,
                None => ip as int,
            },
        ),
{
    let blocked = data.blocked_v6@;
    assert forall|c: int| #[trigger] stands_in_v6(data, ip as int, c) implies (ranges::range_of(
        data.cf_v6@,
        ip,
    ) matches Some(range) && evasion::free_v6(range, blocked, c)) by {
        lemma_range_v6(data, ip, c);
    }
    if ranges::range_of(data.cf_v6@, ip) is Some {
        let range = ranges::range_of(data.cf_v6@, ip)->0;
        ranges::lemma_range_of_within(data.cf_v6@, ip);
        lemma_first_v6(ip, range, blocked, 1, evasion::REACH_V6 as nat);
        if let Some(found) = evasion::neighbour_v6(ip, data.cf_v6@, blocked) {
            lemma_range_v6(data, ip, found as int);
            assert(stands_in_v6(data, ip as int, found as int));
        }
    }
}

/// The search round an IPv4 address, blocked or not, finds the nearest one that may stand in for it,
/// those of its own block of 256 first;
/// it finds none exactly where none may. Only a blocked address is replaced by it.
pub proof fn law_search_v4(data: Data, ip: u32, found: u32)
    requires
        tidy(data),
    ensures
        evasion::neighbour_v4(ip, data.cf_v4@, data.blocked_v4@) is None <==> forall|c: int|
            !#[trigger] stands_in_v4(data, ip as int, c),
        evasion::neighbour_v4(ip, data.cf_v4@, data.blocked_v4@) == Some(found) ==> {
            &&& stands_in_v4(data, ip as int, found as int)
            &&& forall|c: int| #[trigger]
                stands_in_v4(data, ip as int, c) && c != found ==> if (c / 256 == ip as int / 256) == (
                found as int / 256 == ip as int / 256) {
                    nearer(ip as int, found as int, c)
                } else {
                    found as int / 256 == ip as int / 256
                }
        },
        data.replacement_v4(ip) == Some(found) <==> data.blocked_v4@.contains(ip)
            && evasion::neighbour_v4(ip, data.cf_v4@, data.blocked_v4@) == Some(found),
{
    let blocked = data.blocked_v4@;
    assert forall|c: int| #[trigger] stands_in_v4(data, ip as int, c) implies (ranges::range_of(
        data.cf_v4@,
        ip,
    ) matches Some(range) && evasion::free_v4(range, blocked, c)) by {
        lemma_range_v4(data, ip, c);
    }
    if ranges::range_of(data.cf_v4@, ip) is Some {
        let range = ranges::range_of(data.cf_v4@, ip)->0;
        ranges::lemma_range_of_within(data.cf_v4@, ip);
        lemma_first_v4(ip, range, blocked, true, 1, 255);
        lemma_first_v4(ip, range, blocked, false, 1, evasion::wide_limit(range));
        if let Some(other) = evasion::neighbour_v4(ip, data.cf_v4@, blocked) {
            lemma_range_v4(data, ip, other as int);
            assert(stands_in_v4(data, ip as int, other as int));
        }
    }
}

/// The search round an IPv6 address, blocked or not, finds the nearest one that may stand in for it;
/// it finds none exactly where none may. Only a blocked address is replaced by it.
pub proof fn law_search_v6(data: Data, ip: u128, found: u128)
    requires
        tidy(data),
    ensures
        evasion::neighbour_v6(ip, data.cf_v6@, data.blocked_v6@) is None <==> forall|c: int|
            !#[trigger] stands_in_v6(data, ip as int, c),
        evasion::neighbour_v6(ip, data.cf_v6@, data.blocked_v6@) == Some(found) ==> {
            &&& stands_in_v6(data, ip as int, found as int)
            &&& forall|c: int| #[trigger]
                stands_in_v6(data, ip as int, c) && c != found ==> nearer(
                    ip as int,
                    found as int,
                    c,
                )
        },
        data.replacement_v6(ip) == Some(found) <==> data.blocked_v6@.contains(ip)
            && evasion::neighbour_v6(ip, data.cf_v6@, data.blocked_v6@) == Some(found),
{
    let blocked = data.blocked_v6@;
    assert forall|c: int| #[trigger] stands_in_v6(data, ip as int, c) implies (ranges::range_of(
        data.cf_v6@,
        ip,
    ) matches Some(range) && evasion::free_v6(range, blocked, c)) by {
        lemma_range_v6(data, ip, c);
    }
    if ranges::range_of(data.cf_v6@, ip) is Some {
        let range = ranges::range_of(data.cf_v6@, ip)->0;
        ranges::lemma_range_of_within(data.cf_v6@, ip);
        lemma_first_v6(ip, range, blocked, 1, evasion::REACH_V6 as nat);
        if let Some(other) = evasion::neighbour_v6(ip, data.cf_v6@, blocked) {
            lemma_range_v6(data, ip, other as int);
            assert(stands_in_v6(data, ip as int, other as int));
        }
    }
}

/// The address at `at`, as a number.
pub open spec fn address_at(p: Seq<u8>, at: int, v6: bool) -> int {
    if v6 {
        layout::u128_at(p, at)
    } else {
        layout::u32_at(p, at)
    }
}

/// How many bytes an address takes.
pub open spec fn address_size(v6: bool) -> int {
    if v6 {
        16
    } else {
        4
    }
}

/// The address that the redirect pins for the family, if any.
pub open spec fn pin(redirect: Option<TestRedirect>, v6: bool) -> Option<int> {
    match redirect {
        Some(redirect) => if v6 {
            match redirect.v6 {
                Some(ip) => Some(ip as int),
                None => None,
            }
        } else {
            match redirect.v4 {
                Some(ip) => Some(ip as int),
                None => None,
            }
        },
        None => None,
    }
}

/// The slot of an address that a record holds.
proof fn lemma_slot_of(p: Seq<u8>, record: Record, at: int, v6: bool) -> (j: int)
    requires
        p.len() <= usize::MAX,
        record.end() <= p.len(),
        layout::holds_address(p, record, at, v6),
    ensures
        record.rdata <= at,
        at + address_size(v6) <= record.end(),
        0 <= j < slots::record_slots(p, record).len(),
        slots::record_slots(p, record)[j].offset == at,
        slots::record_slots(p, record)[j].v6 == v6,
        rewrite::slot_value(p, slots::record_slots(p, record)[j]) == address_at(p, at, v6),
        forall|q: Seq<u8>|
            q.len() == p.len() ==> #[trigger] rewrite::slot_value(
                q,
                slots::record_slots(p, record)[j],
            ) == address_at(q, at, v6),
{
    layout::lemma_address_in_data(p, record, at, v6);
    layout::law_addresses_of_a_record(p, record, at, v6);
    let slot = Slot { offset: at as usize, v6 };
    let list = slots::record_slots(p, record);
    let j = choose|j: int| 0 <= j < list.len() && list[j] == slot;
    assert(list.contains(slot));
    assert forall|q: Seq<u8>| q.len() == p.len() implies #[trigger] rewrite::slot_value(q, list[j])
        == address_at(q, at, v6) by {
        if v6 {
            layout::law_sixteen_bytes(q, at);
        } else {
            layout::law_four_bytes(q, at);
        }
    }
    j
}

/// What rewriting makes of every address in a message, whether it is the data of an A
/// or AAAA record or any address of a hint: in the answer section what the redirect in
/// force pins for its family; else the nearest address that may stand in for it if it
/// is blocked, and the same if not.
pub proof fn law_every_address_rewritten(
    app: App,
    p: Seq<u8>,
    records: Seq<Record>,
    now: Timestamp,
    i: int,
    at: int,
    v6: bool,
)
    requires
        p.len() <= usize::MAX,
        tidy(*app.data),
        layout::is_message(p, records),
        0 <= i < records.len(),
        layout::holds_address(p, records[i], at, v6),
    ensures
        ({
            let before = address_at(p, at, v6);
            let after = address_at(app.rewritten(p, now), at, v6);
            let pinned = pin(app.redirect(p, now), v6);
            if records[i].answer && pinned is Some {
                after == pinned->0
            } else if v6 {
                moved_v6(*app.data, before, after)
            } else {
                moved_v4(*app.data, before, after)
            }
        }),
{
    let redirect = app.redirect(p, now);
    let data = app.lists();
    let out = app.rewritten(p, now);
    layout::law_records_are_those_of_the_message(p, records);
    effects::lemma_rewritten(p, data, redirect, app.rewrite_ttl);
    assert(effects::record_settled(p, out, records[i], data, redirect));
    let j = lemma_slot_of(p, records[i], at, v6);
    let slot = slots::record_slots(p, records[i])[j];
    effects::lemma_slot_bound(p, slot);
    assert(rewrite::slot_value(out, slot) == address_at(out, at, v6));
    let value = rewrite::slot_value(p, slot);
    if v6 {
        lemma_moved_v6(data, value as u128);
    } else {
        lemma_moved_v4(data, value as u32);
    }
}

/// What becomes of every address in a message that is not emptied, whether it is
/// the data of an A or AAAA record or any address of a hint: in the answer section
/// it becomes what the redirect in force pins for its family; else it moves to the
/// nearest address that may stand in for it if it is blocked, and stays if not.
pub proof fn law_every_address_after(
    app: App,
    p: Seq<u8>,
    records: Seq<Record>,
    now: Timestamp,
    i: int,
    at: int,
    v6: bool,
)
    requires
        p.len() <= usize::MAX,
        tidy(*app.data),
        !empties(p, app.redirect(p, now)),
        layout::is_message(p, records),
        0 <= i < records.len(),
        layout::holds_address(p, records[i], at, v6),
    ensures
        ({
            let before = address_at(p, at, v6);
            let after = address_at(app.processed(p, now), at, v6);
            let pinned = pin(app.redirect(p, now), v6);
            if records[i].answer && pinned is Some {
                after == pinned->0
            } else if v6 {
                moved_v6(*app.data, before, after)
            } else {
                moved_v4(*app.data, before, after)
            }
        }),
{
    lemma_empties(p, app.redirect(p, now));
    law_every_address_rewritten(app, p, records, now, i, at, v6);
}

/// Whether an address lies in one of the ranges of its family.
pub open spec fn in_ranges(data: Data, ip: int, v6: bool) -> bool {
    if v6 {
        exists|k: int|
            0 <= k < data.cf_v6@.len() && (#[trigger] data.cf_v6@[k]).0 <= ip <= data.cf_v6@[k].1
    } else {
        exists|k: int|
            0 <= k < data.cf_v4@.len() && (#[trigger] data.cf_v4@[k]).0 <= ip <= data.cf_v4@[k].1
    }
}

/// Whether the message holds an address of the ranges anywhere.
pub open spec fn meets_ranges(p: Seq<u8>, records: Seq<Record>, data: Data) -> bool {
    exists|i: int, at: int, v6: bool|
        0 <= i < records.len() && #[trigger] layout::holds_address(p, records[i], at, v6)
            && in_ranges(data, address_at(p, at, v6), v6)
}

proof fn lemma_meets_ranges(p: Seq<u8>, records: Seq<Record>, data: Data)
    requires
        p.len() <= usize::MAX,
        tidy(data),
        wire::records_of(p) == Some(records),
    ensures
        rewrite::has_rewritable(p, records, data) <==> meets_ranges(p, records, data),
{
    wire::lemma_records_laid_out(p);
    if rewrite::has_rewritable(p, records, data) {
        let i = choose|i: int|
            0 <= i < records.len() && rewrite::any_rewritable(
                p,
                slots::record_slots(p, #[trigger] records[i]),
                data,
            );
        let list = slots::record_slots(p, records[i]);
        let j = choose|j: int|
            0 <= j < list.len() && rewrite::rewritable(
                data,
                (#[trigger] list[j]).v6,
                rewrite::slot_value(p, list[j]),
            );
        let at = list[j].offset as int;
        let v6 = list[j].v6;
        assert(list.contains(list[j]));
        layout::law_addresses_of_a_record(p, records[i], at, v6);
        let n = lemma_slot_of(p, records[i], at, v6);
        assert(list[n] == list[j]);
        effects::lemma_slot_bound(p, list[j]);
        let value = rewrite::slot_value(p, list[j]);
        if v6 {
            lemma_range_v6(data, value as u128, 0);
        } else {
            lemma_range_v4(data, value as u32, 0);
        }
        assert(layout::holds_address(p, records[i], at, v6));
    }
    if meets_ranges(p, records, data) {
        let (i, at, v6) = choose|i: int, at: int, v6: bool|
            0 <= i < records.len() && #[trigger] layout::holds_address(p, records[i], at, v6)
                && in_ranges(data, address_at(p, at, v6), v6);
        let j = lemma_slot_of(p, records[i], at, v6);
        let list = slots::record_slots(p, records[i]);
        effects::lemma_slot_bound(p, list[j]);
        let value = rewrite::slot_value(p, list[j]);
        if v6 {
            lemma_range_v6(data, value as u128, 0);
        } else {
            lemma_range_v4(data, value as u32, 0);
        }
        assert(rewrite::rewritable(data, list[j].v6, rewrite::slot_value(p, list[j])));
        assert(rewrite::any_rewritable(p, slots::record_slots(p, records[i]), data));
    }
}

/// What rewriting makes of every TTL in a message. Where the message holds an address
/// of the ranges, no record keeps more than 30 seconds; where an address changes, none
/// keeps more than the rewrite TTL. Shorter ones stay, all stay in any other message,
/// and records of the types 41, 249 and 250 keep what stands there.
pub proof fn law_every_ttl_rewritten(
    app: App,
    p: Seq<u8>,
    records: Seq<Record>,
    now: Timestamp,
    i: int,
)
    requires
        p.len() <= usize::MAX,
        tidy(*app.data),
        layout::is_message(p, records),
        0 <= i < records.len(),
    ensures
        ({
            let before = layout::u32_at(p, records[i].ttl as int);
            let after = layout::u32_at(app.rewritten(p, now), records[i].ttl as int);
            let kind = records[i].kind;
            let near = meets_ranges(p, records, *app.data);
            let changed = app.changed(p, now) > 0;
            if kind == 41 || kind == 249 || kind == 250 {
                after == before
            } else {
                &&& after <= before
                &&& near ==> after <= 30
                &&& changed ==> after <= app.rewrite_ttl
                &&& after == before || (near && after == 30) || (changed && after
                    == app.rewrite_ttl)
            }
        }),
{
    let redirect = app.redirect(p, now);
    let data = app.lists();
    let out = app.rewritten(p, now);
    layout::law_records_are_those_of_the_message(p, records);
    effects::lemma_rewritten(p, data, redirect, app.rewrite_ttl);
    lemma_meets_ranges(p, records, data);
    let record = records[i];
    layout::law_four_bytes(p, record.ttl as int);
    layout::law_four_bytes(out, record.ttl as int);
    assert(rewrite::ttl_value(out, record) == effects::ttl_after(
        p,
        record,
        data,
        redirect,
        app.rewrite_ttl,
    ));
}

/// What becomes of every TTL in a message that is not emptied. Where the message
/// holds an address of the ranges, no record keeps more than 30 seconds; where an
/// address changes, none keeps more than the rewrite TTL. Shorter ones stay, all
/// stay in any other message, and the records of the types 41, 249 and 250, whose
/// field is no TTL, are left alone.
pub proof fn law_every_ttl_after(
    app: App,
    p: Seq<u8>,
    records: Seq<Record>,
    now: Timestamp,
    i: int,
)
    requires
        p.len() <= usize::MAX,
        tidy(*app.data),
        !empties(p, app.redirect(p, now)),
        layout::is_message(p, records),
        0 <= i < records.len(),
    ensures
        ({
            let before = layout::u32_at(p, records[i].ttl as int);
            let after = layout::u32_at(app.processed(p, now), records[i].ttl as int);
            let kind = records[i].kind;
            let near = meets_ranges(p, records, *app.data);
            let changed = app.processed_count(p, now) > 0;
            if kind == 41 || kind == 249 || kind == 250 {
                after == before
            } else {
                &&& after <= before
                &&& near ==> after <= 30
                &&& changed ==> after <= app.rewrite_ttl
                &&& after == before || (near && after == 30) || (changed && after
                    == app.rewrite_ttl)
            }
        }),
{
    lemma_empties(p, app.redirect(p, now));
    law_every_ttl_rewritten(app, p, records, now, i);
}

/// Whether byte `k` belongs to a TTL of one of the records.
pub open spec fn byte_of_ttl(records: Seq<Record>, k: int) -> bool {
    exists|i: int|
        0 <= i < records.len() && (#[trigger] records[i]).ttl <= k < records[i].ttl + 4
            && records[i].kind != 41 && records[i].kind != 249 && records[i].kind != 250
}

/// Whether byte `k` belongs to an address that one of the records holds.
pub open spec fn byte_of_address(p: Seq<u8>, records: Seq<Record>, k: int) -> bool {
    exists|i: int, at: int, v6: bool|
        0 <= i < records.len() && #[trigger] layout::holds_address(p, records[i], at, v6) && at <= k
            < at + address_size(v6)
}

proof fn lemma_other_bytes(p: Seq<u8>, records: Seq<Record>, k: int)
    requires
        p.len() <= usize::MAX,
        layout::is_message(p, records),
    ensures
        effects::ttl_byte(records, k) ==> byte_of_ttl(records, k),
        effects::slot_byte(p, records, k) ==> byte_of_address(p, records, k),
{
    layout::law_records_are_those_of_the_message(p, records);
    if effects::ttl_byte(records, k) {
        let i = choose|i: int|
            0 <= i < records.len() && !rewrite::is_pseudo(#[trigger] records[i]) && records[i].ttl
                <= k < records[i].ttl + 4;
        assert(byte_of_ttl(records, k));
    }
    if effects::slot_byte(p, records, k) {
        let i = choose|i: int|
            0 <= i < records.len() && slots::covered(
                slots::record_slots(p, #[trigger] records[i]),
                k,
            );
        let list = slots::record_slots(p, records[i]);
        let j = choose|j: int|
            0 <= j < list.len() && (#[trigger] list[j]).offset <= k < list[j].end();
        assert(list.contains(list[j]));
        layout::law_addresses_of_a_record(p, records[i], list[j].offset as int, list[j].v6);
        assert(layout::holds_address(p, records[i], list[j].offset as int, list[j].v6));
    }
}

/// Rewriting keeps every byte that belongs neither to a TTL nor to an address; in the
/// fourth byte of the header, the bit of value 32 is cleared where an address changed,
/// and nothing else.
#[verifier::rlimit(40)]
pub proof fn law_every_other_byte_kept(
    app: App,
    p: Seq<u8>,
    records: Seq<Record>,
    now: Timestamp,
    k: int,
)
    requires
        p.len() <= usize::MAX,
        layout::is_message(p, records),
        0 <= k < p.len(),
        !byte_of_ttl(records, k),
        !byte_of_address(p, records, k),
    ensures
        app.rewritten(p, now).len() == p.len(),
        k != 3 ==> app.rewritten(p, now)[k] == p[k],
        app.changed(p, now) > 0 ==> app.rewritten(p, now)[3] == p[3] / 64 * 64 + p[3] % 32,
        app.changed(p, now) == 0 ==> app.rewritten(p, now)[3] == p[3],
{
    let redirect = app.redirect(p, now);
    let data = app.lists();
    layout::law_records_are_those_of_the_message(p, records);
    effects::lemma_rewritten(p, data, redirect, app.rewrite_ttl);
    lemma_other_bytes(p, records, k);
}

/// In a message that is not emptied, every byte stays that belongs neither to a
/// TTL nor to an address; in the fourth byte of the header, the bit of value 32 is
/// cleared where an address changed, and nothing else.
pub proof fn law_every_other_byte_stays(
    app: App,
    p: Seq<u8>,
    records: Seq<Record>,
    now: Timestamp,
    k: int,
)
    requires
        p.len() <= usize::MAX,
        !empties(p, app.redirect(p, now)),
        layout::is_message(p, records),
        0 <= k < p.len(),
        !byte_of_ttl(records, k),
        !byte_of_address(p, records, k),
    ensures
        app.processed(p, now).len() == p.len(),
        k != 3 ==> app.processed(p, now)[k] == p[k],
        app.processed_count(p, now) > 0 ==> app.processed(p, now)[3] == p[3] / 64 * 64 + p[3] % 32,
        app.processed_count(p, now) == 0 ==> app.processed(p, now)[3] == p[3],
{
    lemma_empties(p, app.redirect(p, now));
    law_every_other_byte_kept(app, p, records, now, k);
}

/// Every address of a hint is looked at, not the first one alone: where an HTTPS
/// or SVCB record has a parameter of key 4 or 6 at `pos`, each whole address in
/// its value becomes what the redirect in force pins, or moves if it is blocked
/// and another may stand in for it.
pub proof fn law_every_address_of_a_hint(
    app: App,
    p: Seq<u8>,
    records: Seq<Record>,
    now: Timestamp,
    i: int,
    pos: int,
    k: int,
)
    requires
        p.len() <= usize::MAX,
        tidy(*app.data),
        !empties(p, app.redirect(p, now)),
        layout::is_message(p, records),
        0 <= i < records.len(),
        layout::record_has_param(p, records[i], pos),
        0 <= k,
    ensures
        ({
            let out = app.processed(p, now);
            let len = layout::u16_at(p, pos + 2);
            let redirect = app.redirect(p, now);
            &&& layout::u16_at(p, pos) == 4 && k < len / 4 ==> {
                let before = layout::u32_at(p, pos + 4 + 4 * k);
                let after = layout::u32_at(out, pos + 4 + 4 * k);
                if records[i].answer && pin(redirect, false) is Some {
                    after == pin(redirect, false)->0
                } else {
                    moved_v4(*app.data, before, after)
                }
            }
            &&& layout::u16_at(p, pos) == 6 && k < len / 16 ==> {
                let before = layout::u128_at(p, pos + 4 + 16 * k);
                let after = layout::u128_at(out, pos + 4 + 16 * k);
                if records[i].answer && pin(redirect, true) is Some {
                    after == pin(redirect, true)->0
                } else {
                    moved_v6(*app.data, before, after)
                }
            }
        }),
{
    let len = layout::u16_at(p, pos + 2);
    if layout::u16_at(p, pos) == 4 && k < len / 4 {
        assert(layout::param_lists(p, pos, pos + 4 + 4 * k, false));
        assert(layout::holds_address(p, records[i], pos + 4 + 4 * k, false));
        law_every_address_after(app, p, records, now, i, pos + 4 + 4 * k, false);
    }
    if layout::u16_at(p, pos) == 6 && k < len / 16 {
        assert(layout::param_lists(p, pos, pos + 4 + 16 * k, true));
        assert(layout::holds_address(p, records[i], pos + 4 + 16 * k, true));
        law_every_address_after(app, p, records, now, i, pos + 4 + 16 * k, true);
    }
}

/// The places of the addresses that differ between two messages.
pub open spec fn changed_places(p: Seq<u8>, out: Seq<u8>, records: Seq<Record>) -> Set<int> {
    Set::new(
        |at: int|
            exists|i: int, v6: bool|
                0 <= i < records.len() && #[trigger] layout::holds_address(p, records[i], at, v6)
                    && address_at(p, at, v6) != address_at(out, at, v6),
    )
}

/// The places of a list of changes.
spec fn places(changes: Seq<(int, Seq<u8>)>) -> Seq<int> {
    Seq::new(changes.len(), |n: int| changes[n].0)
}

/// Whether the places come in order.
spec fn rising(list: Seq<int>) -> bool {
    forall|a: int, b: int| 0 <= a < b < list.len() ==> #[trigger] list[a] < #[trigger] list[b]
}

proof fn lemma_places_of_slots(
    p: Seq<u8>,
    list: Seq<Slot>,
    data: Data,
    redirect: Option<TestRedirect>,
    low: int,
    high: int,
)
    requires
        slots::in_order(list, low, high),
    ensures
        ({
            let found = places(rewrite::slot_changes(p, list, data, redirect));
            &&& rising(found)
            &&& forall|n: int| 0 <= n < found.len() ==> low <= #[trigger] found[n] < high
            &&& forall|at: int|
                found.contains(at) <==> exists|j: int|
                    0 <= j < list.len() && (#[trigger] list[j]).offset == at && rewrite::new_value(
                        p,
                        list[j],
                        data,
                        redirect,
                    ) is Some
        }),
    decreases list.len(),
{
    let changes = rewrite::slot_changes(p, list, data, redirect);
    let found = places(changes);
    if list.len() > 0 {
        let init = list.drop_last();
        let last = list[list.len() - 1];
        assert(slots::in_order(init, low, last.offset as int)) by {
            assert forall|i: int| 0 <= i < init.len() implies low <= (#[trigger] init[i]).offset
                && init[i].end() <= last.offset by {
                assert(init[i] == list[i]);
                assert(list[i].end() <= list[list.len() - 1].offset);
            }
            assert forall|i: int, j: int| 0 <= i < j < init.len() implies (
            #[trigger] init[i]).end() <= (#[trigger] init[j]).offset by {
                assert(init[i] == list[i] && init[j] == list[j]);
            }
        }
        lemma_places_of_slots(p, init, data, redirect, low, last.offset as int);
        let before = places(rewrite::slot_changes(p, init, data, redirect));
        let some = rewrite::new_value(p, last, data, redirect) is Some;
        if some {
            assert(found =~= before.push(last.offset as int));
        } else {
            assert(found =~= before);
        }
        assert(last.end() <= high);
        assert forall|at: int| found.contains(at) <==> exists|j: int|
            0 <= j < list.len() && (#[trigger] list[j]).offset == at && rewrite::new_value(
                p,
                list[j],
                data,
                redirect,
            ) is Some by {
            if found.contains(at) {
                let n = choose|n: int| 0 <= n < found.len() && found[n] == at;
                if n < before.len() {
                    assert(before[n] == at);
                    assert(before.contains(at));
                    let j = choose|j: int|
                        0 <= j < init.len() && (#[trigger] init[j]).offset == at
                            && rewrite::new_value(p, init[j], data, redirect) is Some;
                    assert(list[j] == init[j]);
                } else {
                    assert(list[list.len() - 1] == last);
                }
            }
            if exists|j: int|
                0 <= j < list.len() && (#[trigger] list[j]).offset == at && rewrite::new_value(
                    p,
                    list[j],
                    data,
                    redirect,
                ) is Some {
                let j = choose|j: int|
                    0 <= j < list.len() && (#[trigger] list[j]).offset == at && rewrite::new_value(
                        p,
                        list[j],
                        data,
                        redirect,
                    ) is Some;
                if j < init.len() {
                    assert(init[j] == list[j]);
                    assert(before.contains(at));
                    let n = choose|n: int| 0 <= n < before.len() && before[n] == at;
                    assert(found[n] == at);
                } else {
                    assert(found[found.len() - 1] == at);
                }
            }
        }
    } else {
        assert(found =~= Seq::<int>::empty());
    }
}

proof fn lemma_places_of_message(
    p: Seq<u8>,
    records: Seq<Record>,
    data: Data,
    redirect: Option<TestRedirect>,
    low: int,
    high: int,
)
    requires
        p.len() <= usize::MAX,
        high <= p.len(),
        wire::laid_out(records, low, high),
    ensures
        ({
            let found = places(rewrite::message_changes(p, records, data, redirect));
            &&& rising(found)
            &&& forall|n: int| 0 <= n < found.len() ==> low <= #[trigger] found[n] < high
            &&& forall|at: int|
                found.contains(at) <==> exists|i: int, j: int|
                    0 <= i < records.len() && 0 <= j < slots::record_slots(p, records[i]).len()
                        && (#[trigger] slots::record_slots(p, records[i])[j]).offset == at
                        && rewrite::new_value(
                        p,
                        slots::record_slots(p, records[i])[j],
                        data,
                        rewrite::redirect_for(redirect, records[i]),
                    ) is Some
        }),
    decreases records.len(),
{
    let found = places(rewrite::message_changes(p, records, data, redirect));
    if records.len() > 0 {
        let init = records.drop_last();
        let last = records[records.len() - 1];
        let own = rewrite::redirect_for(redirect, last);
        let list = slots::record_slots(p, last);
        assert(wire::laid_out(init, low, last.start as int)) by {
            assert forall|i: int| 0 <= i < init.len() implies {
                &&& low <= (#[trigger] init[i]).start
                &&& init[i].start + 5 <= init[i].ttl
                &&& init[i].ttl + 6 == init[i].rdata
                &&& init[i].end() <= last.start
            } by {
                assert(init[i] == records[i]);
                assert(records[i].end() <= records[records.len() - 1].start);
            }
            assert forall|i: int, j: int| 0 <= i < j < init.len() implies (
            #[trigger] init[i]).end() <= (#[trigger] init[j]).start by {
                assert(init[i] == records[i] && init[j] == records[j]);
            }
        }
        lemma_places_of_message(p, init, data, redirect, low, last.start as int);
        slots::lemma_slots_in_order(p, last);
        lemma_places_of_slots(p, list, data, own, last.rdata as int, last.end());
        let before = places(rewrite::message_changes(p, init, data, redirect));
        let mine = places(rewrite::slot_changes(p, list, data, own));
        assert(found =~= before + mine);
        assert forall|a: int, b: int| 0 <= a < b < found.len() implies #[trigger] found[a]
            < #[trigger] found[b] by {
            if a < before.len() {
                assert(found[a] == before[a]);
            } else {
                assert(found[a] == mine[a - before.len()]);
            }
            if b < before.len() {
                assert(found[b] == before[b]);
            } else {
                assert(found[b] == mine[b - before.len()]);
            }
        }
        assert forall|n: int| 0 <= n < found.len() implies low <= #[trigger] found[n] < high by {
            if n < before.len() {
                assert(found[n] == before[n]);
            } else {
                assert(found[n] == mine[n - before.len()]);
            }
        }
        assert forall|at: int| found.contains(at) <==> exists|i: int, j: int|
            0 <= i < records.len() && 0 <= j < slots::record_slots(p, records[i]).len() && (
            #[trigger] slots::record_slots(p, records[i])[j]).offset == at && rewrite::new_value(
                p,
                slots::record_slots(p, records[i])[j],
                data,
                rewrite::redirect_for(redirect, records[i]),
            ) is Some by {
            if found.contains(at) {
                let n = choose|n: int| 0 <= n < found.len() && found[n] == at;
                if n < before.len() {
                    assert(before[n] == at);
                    assert(before.contains(at));
                    let (i, j) = choose|i: int, j: int|
                        0 <= i < init.len() && 0 <= j < slots::record_slots(p, init[i]).len() && (
                        #[trigger] slots::record_slots(p, init[i])[j]).offset == at
                            && rewrite::new_value(
                            p,
                            slots::record_slots(p, init[i])[j],
                            data,
                            rewrite::redirect_for(redirect, init[i]),
                        ) is Some;
                    assert(init[i] == records[i]);
                    assert(slots::record_slots(p, records[i])[j].offset == at);
                } else {
                    assert(mine[n - before.len()] == at);
                    assert(mine.contains(at));
                    let j = choose|j: int|
                        0 <= j < list.len() && (#[trigger] list[j]).offset == at
                            && rewrite::new_value(p, list[j], data, own) is Some;
                    assert(slots::record_slots(p, records[records.len() - 1])[j].offset == at);
                }
            }
            if exists|i: int, j: int|
                0 <= i < records.len() && 0 <= j < slots::record_slots(p, records[i]).len() && (
                #[trigger] slots::record_slots(p, records[i])[j]).offset == at
                    && rewrite::new_value(
                    p,
                    slots::record_slots(p, records[i])[j],
                    data,
                    rewrite::redirect_for(redirect, records[i]),
                ) is Some {
                let (i, j) = choose|i: int, j: int|
                    0 <= i < records.len() && 0 <= j < slots::record_slots(p, records[i]).len() && (
                    #[trigger] slots::record_slots(p, records[i])[j]).offset == at
                        && rewrite::new_value(
                        p,
                        slots::record_slots(p, records[i])[j],
                        data,
                        rewrite::redirect_for(redirect, records[i]),
                    ) is Some;
                if i < init.len() {
                    assert(init[i] == records[i]);
                    assert(slots::record_slots(p, init[i])[j].offset == at);
                    assert(before.contains(at));
                    let n = choose|n: int| 0 <= n < before.len() && before[n] == at;
                    assert(found[n] == at);
                } else {
                    assert(list[j].offset == at);
                    assert(mine.contains(at));
                    let n = choose|n: int| 0 <= n < mine.len() && mine[n] == at;
                    assert(found[before.len() + n] == at);
                }
            }
        }
    } else {
        assert(found =~= Seq::<int>::empty());
    }
}

/// Rewriting counts the places whose address is another one afterwards.
pub proof fn law_rewriting_counts_changes(
    app: App,
    p: Seq<u8>,
    records: Seq<Record>,
    now: Timestamp,
)
    requires
        p.len() <= usize::MAX,
        layout::is_message(p, records),
    ensures
        changed_places(p, app.rewritten(p, now), records).finite(),
        app.changed(p, now) == changed_places(p, app.rewritten(p, now), records).len(),
{
    let redirect = app.redirect(p, now);
    let data = app.lists();
    let out = app.rewritten(p, now);
    layout::law_records_are_those_of_the_message(p, records);
    effects::lemma_rewritten(p, data, redirect, app.rewrite_ttl);
    lemma_places_of_message(p, records, data, redirect, 12, p.len() as int);
    let found = places(rewrite::message_changes(p, records, data, redirect));
    let changed = changed_places(p, out, records);
    assert forall|at: int| found.contains(at) <==> changed.contains(at) by {
        if found.contains(at) {
            let (i, j) = choose|i: int, j: int|
                0 <= i < records.len() && 0 <= j < slots::record_slots(p, records[i]).len() && (
                #[trigger] slots::record_slots(p, records[i])[j]).offset == at
                    && rewrite::new_value(
                    p,
                    slots::record_slots(p, records[i])[j],
                    data,
                    rewrite::redirect_for(redirect, records[i]),
                ) is Some;
            let list = slots::record_slots(p, records[i]);
            let v6 = list[j].v6;
            assert(list.contains(list[j]));
            layout::law_addresses_of_a_record(p, records[i], at, v6);
            let n = lemma_slot_of(p, records[i], at, v6);
            assert(list[n] == list[j]);
            assert(effects::record_settled(p, out, records[i], data, redirect));
            assert(rewrite::slot_value(out, list[n]) == address_at(out, at, v6));
            assert(layout::holds_address(p, records[i], at, v6));
        }
        if changed.contains(at) {
            let (i, v6) = choose|i: int, v6: bool|
                0 <= i < records.len() && #[trigger] layout::holds_address(p, records[i], at, v6)
                    && address_at(p, at, v6) != address_at(out, at, v6);
            let j = lemma_slot_of(p, records[i], at, v6);
            assert(effects::record_settled(p, out, records[i], data, redirect));
            let list = slots::record_slots(p, records[i]);
            assert(rewrite::slot_value(out, list[j]) == address_at(out, at, v6));
            assert(slots::record_slots(p, records[i])[j].offset == at);
        }
    }
    assert(found.to_set() =~= changed);
    assert(found.no_duplicates());
    found.unique_seq_to_set();
}

/// What is counted is how many addresses are another one afterwards: in a message
/// that is not emptied, the count is the number of places whose address differs.
pub proof fn law_count_is_what_changed(
    app: App,
    p: Seq<u8>,
    records: Seq<Record>,
    now: Timestamp,
)
    requires
        p.len() <= usize::MAX,
        !empties(p, app.redirect(p, now)),
        layout::is_message(p, records),
    ensures
        changed_places(p, app.processed(p, now), records).finite(),
        app.processed_count(p, now) == changed_places(p, app.processed(p, now), records).len(),
{
    lemma_empties(p, app.redirect(p, now));
    law_rewriting_counts_changes(app, p, records, now);
}

proof fn lemma_emptied_head(
    app: App,
    p: Seq<u8>,
    records: Seq<Record>,
    now: Timestamp,
    end: int,
)
    requires
        p.len() <= usize::MAX,
        empties(p, app.redirect(p, now)),
        layout::is_message(p, records),
        layout::is_name(p, 12, end),
        layout::u16_at(p, 4) == 1,
        records.filter(|record: Record| record.kind == 41).len() < 65536,
    ensures
        ({
            let out = app.processed(p, now);
            let kept = records.filter(|record: Record| record.kind == 41);
            &&& app.processed_count(p, now) == layout::u16_at(p, 6)
            &&& layout::u16_at(out, 6) == 0
            &&& layout::u16_at(out, 8) == 0
            &&& layout::u16_at(out, 10) == kept.len()
            &&& out[3] == p[3] / 64 * 64 + p[3] % 32
            &&& forall|k: int|
                0 <= k < end + 4 && k != 3 && !(6 <= k < 12) ==> #[trigger] out[k] == p[k]
        }),
{
    let redirect = app.redirect(p, now);
    let out = app.processed(p, now);
    let kept = records.filter(|record: Record| record.kind == 41);
    lemma_empties(p, redirect);
    layout::law_records_are_those_of_the_message(p, records);
    layout::law_name_extent(p, 12, end);
    layout::law_two_bytes(p, 4);
    wire::lemma_name_end_bounds(p, 12);
    proxy::lemma_options_count(records);
    assert(kept == proxy::options(records));
    layout::law_two_bytes(p, 6);
    proxy::law_emptied_answers_nothing(p, redirect);
    layout::law_two_bytes(out, 6);
    layout::law_two_bytes(out, 8);
    layout::law_two_bytes(out, 10);
}

proof fn lemma_emptied_records(
    app: App,
    p: Seq<u8>,
    records: Seq<Record>,
    now: Timestamp,
    end: int,
)
    requires
        p.len() <= usize::MAX,
        empties(p, app.redirect(p, now)),
        layout::is_message(p, records),
        layout::is_name(p, 12, end),
        layout::u16_at(p, 4) == 1,
        records.filter(|record: Record| record.kind == 41).len() < 65536,
    ensures
        ({
            let out = app.processed(p, now);
            let kept = records.filter(|record: Record| record.kind == 41);
            exists|copies: Seq<Record>| #[trigger]
                layout::is_message(out, copies) && copies.len() == kept.len() && forall|k: int|
                    0 <= k < copies.len() ==> (#[trigger] copies[k]).kind == 41 && out.subrange(
                        copies[k].start as int,
                        copies[k].rdata + copies[k].rdlen,
                    ) == p.subrange(kept[k].start as int, kept[k].rdata + kept[k].rdlen)
        }),
{
    let redirect = app.redirect(p, now);
    let out = app.processed(p, now);
    let kept = records.filter(|record: Record| record.kind == 41);
    lemma_empties(p, redirect);
    layout::law_records_are_those_of_the_message(p, records);
    layout::law_name_extent(p, 12, end);
    layout::law_two_bytes(p, 4);
    wire::lemma_name_end_bounds(p, 12);
    proxy::lemma_options_count(records);
    assert(kept == proxy::options(records));
    proxy::law_emptied_keeps_options(p, redirect);
    let copies = wire::records_of(out)->0;
    layout::law_records_are_those_of_the_message(out, copies);
    assert(layout::is_message(out, copies));
}

/// What becomes of an answer that is emptied. The number of its answers is counted.
/// The message keeps its identity, its flags but for the bit of value 32, and its
/// question; it has no answers, and of its records just those of type 41, byte for
/// byte and in their order.
pub proof fn law_emptied_message(
    app: App,
    p: Seq<u8>,
    records: Seq<Record>,
    now: Timestamp,
    end: int,
)
    requires
        p.len() <= usize::MAX,
        empties(p, app.redirect(p, now)),
        layout::is_message(p, records),
        layout::is_name(p, 12, end),
        layout::u16_at(p, 4) == 1,
        records.filter(|record: Record| record.kind == 41).len() < 65536,
    ensures
        ({
            let out = app.processed(p, now);
            let kept = records.filter(|record: Record| record.kind == 41);
            &&& app.processed_count(p, now) == layout::u16_at(p, 6)
            &&& layout::u16_at(out, 6) == 0
            &&& layout::u16_at(out, 8) == 0
            &&& layout::u16_at(out, 10) == kept.len()
            &&& out[3] == p[3] / 64 * 64 + p[3] % 32
            &&& forall|k: int|
                0 <= k < end + 4 && k != 3 && !(6 <= k < 12) ==> #[trigger] out[k] == p[k]
            &&& exists|copies: Seq<Record>| #[trigger]
                layout::is_message(out, copies) && copies.len() == kept.len() && forall|k: int|
                    0 <= k < copies.len() ==> (#[trigger] copies[k]).kind == 41 && out.subrange(
                        copies[k].start as int,
                        copies[k].rdata + copies[k].rdlen,
                    ) == p.subrange(kept[k].start as int, kept[k].rdata + kept[k].rdlen)
        }),
{
    lemma_emptied_head(app, p, records, now, end);
    lemma_emptied_records(app, p, records, now, end);
}

/// An answer that is emptied leaves out all of its answers, whatever the questions:
/// what goes out announces none.
pub proof fn law_emptied_message_has_no_answer(app: App, p: Seq<u8>, now: Timestamp)
    requires
        p.len() <= usize::MAX,
        empties(p, app.redirect(p, now)),
    ensures
        layout::u16_at(app.processed(p, now), 6) == 0,
        layout::u16_at(app.processed(p, now), 8) == 0,
        app.processed_count(p, now) == layout::u16_at(p, 6),
{
    let redirect = app.redirect(p, now);
    lemma_empties(p, redirect);
    wire::lemma_name_end_bounds(p, 12);
    proxy::law_emptied_answers_nothing(p, redirect);
    layout::law_two_bytes(p, 6);
    layout::law_two_bytes(app.processed(p, now), 6);
    layout::law_two_bytes(app.processed(p, now), 8);
}

} // verus!
