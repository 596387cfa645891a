//! What the bytes of a message say, read off one by one: numbers, names, records
//! and addresses as relations between places in the message.

use crate::bytes;
use crate::slots;
use crate::slots::Slot;
use crate::wire;
use crate::wire::Record;
use vstd::prelude::*;

verus! {

/// The number in the two bytes at `k`.
pub open spec fn u16_at(p: Seq<u8>, k: int) -> int {
    p[k] * 256 + p[k + 1]
}

/// The number in the four bytes at `k`.
pub open spec fn u32_at(p: Seq<u8>, k: int) -> int {
    p[k] * 0x100_0000 + p[k + 1] * 0x1_0000 + p[k + 2] * 0x100 + p[k + 3]
}

/// The number in the sixteen bytes at `k`.
pub open spec fn u128_at(p: Seq<u8>, k: int) -> int {
    u32_at(p, k) * 0x1_0000_0000_0000_0000_0000_0000 + u32_at(p, k + 4) * 0x1_0000_0000_0000_0000
        + u32_at(p, k + 8) * 0x1_0000_0000 + u32_at(p, k + 12)
}

proof fn lemma_field_grows(p: Seq<u8>, k: int, width: nat)
    requires
        0 <= k,
        k + width + 1 <= p.len(),
    ensures
        bytes::be_field(p, k, width + 1) == bytes::be_field(p, k, width) * 256 + p[k + width],
{
    let longer = p.subrange(k, k + width + 1);
    assert(longer.drop_last() == p.subrange(k, k + width));
}

/// A field of more bytes is read with the first byte as the most significant: one
/// byte more behind it multiplies the number by 256.
pub proof fn law_first_byte_weighs_most(p: Seq<u8>, k: int, width: nat)
    requires
        0 <= k,
        k + width + 1 <= p.len(),
    ensures
        bytes::be_field(p, k, 0) == 0,
        bytes::be_field(p, k, width + 1) == bytes::be_field(p, k, width) * 256 + p[k + width],
{
    lemma_field_grows(p, k, width);
    assert(p.subrange(k, k) == Seq::<u8>::empty());
}

/// A field of two bytes is the first one times 256 plus the second one.
pub proof fn law_two_bytes(p: Seq<u8>, k: int)
    requires
        0 <= k,
        k + 2 <= p.len(),
    ensures
        bytes::be_field(p, k, 2) == u16_at(p, k),
{
    law_first_byte_weighs_most(p, k, 0);
    lemma_field_grows(p, k, 1);
}

proof fn lemma_four_more(p: Seq<u8>, k: int, width: nat)
    requires
        0 <= k,
        k + width + 4 <= p.len(),
    ensures
        bytes::be_field(p, k, width + 4) == bytes::be_field(p, k, width) * 0x1_0000_0000 + u32_at(
            p,
            k + width,
        ),
{
    lemma_field_grows(p, k, width);
    lemma_field_grows(p, k, width + 1);
    lemma_field_grows(p, k, width + 2);
    lemma_field_grows(p, k, width + 3);
}

/// A field of four bytes, as an IPv4 address or a TTL, is big-endian.
pub proof fn law_four_bytes(p: Seq<u8>, k: int)
    requires
        0 <= k,
        k + 4 <= p.len(),
    ensures
        bytes::be_field(p, k, 4) == u32_at(p, k),
{
    lemma_four_more(p, k, 0);
    assert(p.subrange(k, k) == Seq::<u8>::empty());
}

/// A field of sixteen bytes, as an IPv6 address, is big-endian.
pub proof fn law_sixteen_bytes(p: Seq<u8>, k: int)
    requires
        0 <= k,
        k + 16 <= p.len(),
    ensures
        bytes::be_field(p, k, 16) == u128_at(p, k),
{
    law_four_bytes(p, k);
    lemma_four_more(p, k, 4);
    lemma_four_more(p, k, 8);
    lemma_four_more(p, k, 12);
}

/// Whether a label that starts at `from` is followed by what stands at `to`.
pub open spec fn label_step(p: Seq<u8>, from: int, to: int) -> bool {
    0 <= from < p.len() && 1 <= p[from] <= 63 && to == from + 1 + p[from]
}

/// Whether `stops` are the starts of the labels of a name at `first`, the last
/// stop being where the labels end.
pub open spec fn label_walk(p: Seq<u8>, stops: Seq<int>, first: int) -> bool {
    &&& stops.len() > 0
    &&& stops[0] == first
    &&& forall|i: int, j: int|
        0 <= i < stops.len() - 1 && j == i + 1 ==> label_step(
            p,
            #[trigger] stops[i],
            #[trigger] stops[j],
        )
}

/// Whether the walk ends at a zero byte or at a compression pointer of two bytes,
/// behind which `end` comes.
pub open spec fn name_walk(p: Seq<u8>, stops: Seq<int>, first: int, end: int) -> bool {
    let last = stops[stops.len() - 1];
    &&& label_walk(p, stops, first)
    &&& 0 <= last < p.len()
    &&& end <= p.len()
    &&& (p[last] == 0 && end == last + 1) || (p[last] >= 192 && end == last + 2)
}

/// Whether a domain name takes the bytes from `first` up to `end`.
pub open spec fn is_name(p: Seq<u8>, first: int, end: int) -> bool {
    exists|stops: Seq<int>| name_walk(p, stops, first, end)
}

proof fn lemma_walk_rest(p: Seq<u8>, stops: Seq<int>, first: int)
    requires
        label_walk(p, stops, first),
        stops.len() > 1,
    ensures
        label_step(p, first, stops[1]),
        label_walk(p, stops.drop_first(), stops[1]),
{
    let rest = stops.drop_first();
    assert(label_step(p, stops[0], stops[1]));
    assert forall|i: int, j: int| 0 <= i < rest.len() - 1 && j == i + 1 implies label_step(
        p,
        #[trigger] rest[i],
        #[trigger] rest[j],
    ) by {
        assert(rest[i] == stops[i + 1] && rest[j] == stops[j + 1]);
    }
}

proof fn lemma_walk_more(p: Seq<u8>, stops: Seq<int>, first: int, next: int)
    requires
        label_walk(p, stops, next),
        label_step(p, first, next),
    ensures
        label_walk(p, seq![first] + stops, first),
        (seq![first] + stops)[stops.len() as int] == stops[stops.len() - 1],
{
    let longer = seq![first] + stops;
    assert forall|i: int, j: int| 0 <= i < longer.len() - 1 && j == i + 1 implies label_step(
        p,
        #[trigger] longer[i],
        #[trigger] longer[j],
    ) by {
        assert(longer[j] == stops[j - 1]);
        if i > 0 {
            assert(longer[i] == stops[i - 1]);
        }
    }
}

proof fn lemma_name_from_walk(p: Seq<u8>, stops: Seq<int>, first: int, end: int)
    requires
        name_walk(p, stops, first, end),
    ensures
        wire::name_end(p, first) == Some(end),
    decreases stops.len(),
{
    if stops.len() > 1 {
        lemma_walk_rest(p, stops, first);
        let rest = stops.drop_first();
        assert(rest[rest.len() - 1] == stops[stops.len() - 1]);
        lemma_name_from_walk(p, rest, stops[1], end);
        wire::lemma_name_end_bounds(p, stops[1]);
    }
}

proof fn lemma_walk_of_name(p: Seq<u8>, first: int)
    requires
        wire::name_end(p, first) is Some,
    ensures
        is_name(p, first, wire::name_end(p, first)->0),
    decreases p.len() - first,
{
    let end = wire::name_end(p, first)->0;
    if p[first] == 0 || p[first] >= 192 {
        assert(name_walk(p, seq![first], first, end));
    } else {
        let next = first + 1 + p[first];
        lemma_walk_of_name(p, next);
        let stops = choose|stops: Seq<int>| name_walk(p, stops, next, end);
        lemma_walk_more(p, stops, first, next);
        assert(name_walk(p, seq![first] + stops, first, end));
    }
}

/// A name is taken to end exactly where its labels of 1 to 63 bytes lead to a zero
/// byte or a compression pointer inside the message.
pub proof fn law_name_extent(p: Seq<u8>, first: int, end: int)
    ensures
        wire::name_end(p, first) == Some(end) <==> is_name(p, first, end),
{
    if wire::name_end(p, first) == Some(end) {
        lemma_walk_of_name(p, first);
    }
    if is_name(p, first, end) {
        let stops = choose|stops: Seq<int>| name_walk(p, stops, first, end);
        lemma_name_from_walk(p, stops, first, end);
    }
}

/// Whether a question takes the bytes from `from` up to `to`: a name, a type and a
/// class.
pub open spec fn question_step(p: Seq<u8>, from: int, to: int) -> bool {
    is_name(p, from, to - 4) && to <= p.len()
}

/// Whether `count` questions take the bytes from `first` up to `end`.
pub open spec fn question_walk(p: Seq<u8>, ends: Seq<int>, first: int, count: int, end: int) -> bool {
    &&& ends.len() == count + 1
    &&& ends[0] == first
    &&& ends[count] == end
    &&& forall|i: int, j: int|
        0 <= i < count && j == i + 1 ==> question_step(p, #[trigger] ends[i], #[trigger] ends[j])
}

/// Whether the questions of the message end at `end`.
pub open spec fn questions_take(p: Seq<u8>, first: int, count: int, end: int) -> bool {
    exists|ends: Seq<int>| question_walk(p, ends, first, count, end)
}

/// Whether `record` says what stands in the message at its place: behind the owner
/// name a type, a class, a TTL, the length of the data, and the data.
pub open spec fn record_fits(p: Seq<u8>, record: Record) -> bool {
    &&& is_name(p, record.start as int, record.ttl - 4)
    &&& record.rdata == record.ttl + 6
    &&& record.rdata <= p.len()
    &&& record.kind == u16_at(p, record.ttl - 4)
    &&& record.rdlen == u16_at(p, record.rdata - 2)
    &&& record.rdata + record.rdlen <= p.len()
}

/// Whether the records follow each other from `first` on.
pub open spec fn records_follow(p: Seq<u8>, records: Seq<Record>, first: int) -> bool {
    &&& records.len() > 0 ==> records[0].start == first
    &&& forall|i: int| 0 <= i < records.len() ==> record_fits(p, #[trigger] records[i])
    &&& forall|i: int, j: int|
        0 <= i < records.len() - 1 && j == i + 1 ==> (#[trigger] records[j]).start == (
        #[trigger] records[i]).rdata + records[i].rdlen
}

/// Whether the message is well formed and holds just these records: as many as the
/// three counts of its header announce, the first of them being the answers.
pub open spec fn is_message(p: Seq<u8>, records: Seq<Record>) -> bool {
    &&& p.len() >= 12
    &&& records.len() == u16_at(p, 6) + u16_at(p, 8) + u16_at(p, 10)
    &&& forall|i: int|
        0 <= i < records.len() ==> ((#[trigger] records[i]).answer <==> i < u16_at(p, 6))
    &&& exists|first: int| #[trigger]
        questions_take(p, 12, u16_at(p, 4), first) && records_follow(p, records, first)
}

proof fn lemma_questions(p: Seq<u8>, first: int, count: nat, end: int)
    requires
        0 <= first <= p.len(),
    ensures
        wire::questions_end(p, first, count) == Some(end) <==> questions_take(
            p,
            first,
            count as int,
            end,
        ),
    decreases count,
{
    if count == 0 {
        if wire::questions_end(p, first, count) == Some(end) {
            assert(question_walk(p, seq![first], first, 0, end));
        }
        if questions_take(p, first, 0, end) {
            let ends = choose|ends: Seq<int>| question_walk(p, ends, first, 0, end);
            assert(ends[0] == first);
        }
    } else {
        let less = (count - 1) as nat;
        if wire::questions_end(p, first, count) == Some(end) {
            let next = wire::name_end(p, first)->0 + 4;
            law_name_extent(p, first, next - 4);
            wire::lemma_name_end_bounds(p, first);
            lemma_questions(p, next, less, end);
            let ends = choose|ends: Seq<int>| question_walk(p, ends, next, less as int, end);
            let longer = seq![first] + ends;
            assert forall|i: int, j: int| 0 <= i < count && j == i + 1 implies question_step(
                p,
                #[trigger] longer[i],
                #[trigger] longer[j],
            ) by {
                assert(longer[j] == ends[j - 1]);
                if i > 0 {
                    assert(longer[i] == ends[i - 1]);
                }
            }
            assert(longer[count as int] == ends[less as int]);
            assert(question_walk(p, longer, first, count as int, end));
        }
        if questions_take(p, first, count as int, end) {
            let ends = choose|ends: Seq<int>| question_walk(p, ends, first, count as int, end);
            let rest = ends.drop_first();
            assert(question_step(p, ends[0], ends[1]));
            law_name_extent(p, first, ends[1] - 4);
            wire::lemma_name_end_bounds(p, first);
            assert forall|i: int, j: int| 0 <= i < less && j == i + 1 implies question_step(
                p,
                #[trigger] rest[i],
                #[trigger] rest[j],
            ) by {
                assert(rest[i] == ends[i + 1] && rest[j] == ends[j + 1]);
            }
            assert(rest[less as int] == ends[count as int]);
            assert(question_walk(p, rest, ends[1], less as int, end));
            lemma_questions(p, ends[1], less, end);
        }
    }
}

proof fn lemma_record(p: Seq<u8>, start: int, answer: bool, record: Record)
    requires
        p.len() <= usize::MAX,
        0 <= start <= p.len(),
    ensures
        wire::record_at(p, start, answer) == Some(record) <==> record_fits(p, record)
            && record.start == start && record.answer == answer,
{
    if wire::record_at(p, start, answer) == Some(record) {
        let head = wire::name_end(p, start)->0;
        wire::lemma_name_end_bounds(p, start);
        law_name_extent(p, start, head);
        law_two_bytes(p, head);
        law_two_bytes(p, head + 8);
    }
    if record_fits(p, record) && record.start == start && record.answer == answer {
        let head = record.ttl - 4;
        law_name_extent(p, start, head);
        wire::lemma_name_end_bounds(p, start);
        law_two_bytes(p, head);
        law_two_bytes(p, head + 8);
    }
}

proof fn lemma_records(
    p: Seq<u8>,
    first: int,
    index: nat,
    answers: nat,
    total: nat,
    records: Seq<Record>,
)
    requires
        p.len() <= usize::MAX,
        0 <= first <= p.len(),
        index <= total,
    ensures
        wire::records_from(p, first, index, answers, total) == Some(records) <==> (records_follow(
            p,
            records,
            first,
        ) && records.len() == total - index && forall|i: int|
            0 <= i < records.len() ==> ((#[trigger] records[i]).answer <==> index + i < answers)),
    decreases total - index,
{
    let found = wire::records_from(p, first, index, answers, total);
    if index == total {
        if records.len() == 0 {
            assert(records =~= Seq::<Record>::empty());
        }
    } else {
        if found == Some(records) {
            let record = wire::record_at(p, first, index < answers)->0;
            let rest = wire::records_from(p, record.end(), index + 1, answers, total)->0;
            wire::lemma_name_end_bounds(p, first);
            lemma_record(p, first, index < answers, record);
            lemma_records(p, record.end(), index + 1, answers, total, rest);
            assert(records == seq![record] + rest);
            assert forall|i: int| 0 <= i < records.len() implies record_fits(
                p,
                #[trigger] records[i],
            ) && (records[i].answer <==> index + i < answers) by {
                if i > 0 {
                    assert(records[i] == rest[i - 1]);
                }
            }
            assert forall|i: int, j: int| 0 <= i < records.len() - 1 && j == i + 1 implies (
            #[trigger] records[j]).start == (#[trigger] records[i]).rdata + records[i].rdlen by {
                assert(records[j] == rest[j - 1]);
                if i > 0 {
                    assert(records[i] == rest[i - 1]);
                }
            }
        }
        if records_follow(p, records, first) && records.len() == total - index && (forall|i: int|
            0 <= i < records.len() ==> ((#[trigger] records[i]).answer <==> index + i < answers)) {
            let record = records[0];
            let rest = records.drop_first();
            lemma_record(p, first, index < answers, record);
            wire::lemma_name_end_bounds(p, first);
            assert forall|i: int| 0 <= i < rest.len() implies record_fits(p, #[trigger] rest[i])
                && (rest[i].answer <==> index + 1 + i < answers) by {
                assert(rest[i] == records[i + 1]);
            }
            assert forall|i: int, j: int| 0 <= i < rest.len() - 1 && j == i + 1 implies (
            #[trigger] rest[j]).start == (#[trigger] rest[i]).rdata + rest[i].rdlen by {
                assert(rest[i] == records[i + 1] && rest[j] == records[j + 1]);
            }
            if rest.len() > 0 {
                assert(rest[0] == records[1]);
            }
            assert(records_follow(p, rest, record.end()));
            lemma_records(p, record.end(), index + 1, answers, total, rest);
            assert(seq![record] + rest =~= records);
        }
    }
}

/// A message is parsed exactly where its bytes are laid out as a message, and into
/// just the records that stand there: as many as the header announces, each with
/// the type, TTL field and data that its bytes give, marked as an answer exactly
/// below the answer count.
pub proof fn law_records_are_those_of_the_message(p: Seq<u8>, records: Seq<Record>)
    requires
        p.len() <= usize::MAX,
    ensures
        wire::records_of(p) == Some(records) <==> is_message(p, records),
{
    if p.len() >= 12 {
        law_two_bytes(p, 4);
        law_two_bytes(p, 6);
        law_two_bytes(p, 8);
        law_two_bytes(p, 10);
        let count = bytes::be_field(p, 4, 2);
        let answers = bytes::be_field(p, 6, 2);
        let total = wire::announced(p);
        if wire::records_of(p) == Some(records) {
            let first = wire::questions_end(p, 12, count)->0;
            wire::lemma_records_behind_questions(p);
            lemma_questions(p, 12, count, first);
            lemma_records(p, first, 0, answers, total, records);
            assert(questions_take(p, 12, u16_at(p, 4), first));
        }
        if is_message(p, records) {
            let first = choose|first: int| #[trigger]
                questions_take(p, 12, u16_at(p, 4), first) && records_follow(p, records, first);
            lemma_questions(p, 12, count, first);
            wire::lemma_questions_end_bounds(p, 12, count);
            lemma_records(p, first, 0, answers, total, records);
        }
    }
}

/// The list of records has as many entries as the three counts of the header
/// announce, and an entry is marked as an answer exactly where it is one of the
/// first ones, as many as the answer count says.
pub proof fn law_answers_are_the_first_records(p: Seq<u8>, i: int)
    requires
        p.len() <= usize::MAX,
        wire::records_of(p) is Some,
        0 <= i < wire::records_of(p)->0.len(),
    ensures
        wire::records_of(p)->0.len() == (p[6] * 256 + p[7]) + (p[8] * 256 + p[9]) + (p[10] * 256
            + p[11]),
        wire::records_of(p)->0[i].answer <==> i < p[6] * 256 + p[7],
{
    law_records_are_those_of_the_message(p, wire::records_of(p)->0);
}

/// Whether an uncompressed name takes the bytes from `first` up to `end`, which is
/// not behind `limit`.
pub open spec fn is_target(p: Seq<u8>, first: int, end: int, limit: int) -> bool {
    exists|stops: Seq<int>|
        #![trigger label_walk(p, stops, first)]
        label_walk(p, stops, first) && 0 <= stops[stops.len() - 1] < limit && p[stops[stops.len()
            - 1]] == 0 && end == stops[stops.len() - 1] + 1
}

/// Whether a service parameter stands at `pos`, all of it in front of `limit`: a
/// key, a length and as many bytes.
pub open spec fn param_fits(p: Seq<u8>, pos: int, limit: int) -> bool {
    pos + 4 <= limit && pos + 4 + u16_at(p, pos + 2) <= limit
}

/// Whether service parameters follow each other from `first` to the one at the
/// last of the `stops`.
pub open spec fn param_walk(p: Seq<u8>, stops: Seq<int>, first: int, limit: int) -> bool {
    &&& stops.len() > 0
    &&& stops[0] == first
    &&& forall|i: int| 0 <= i < stops.len() ==> param_fits(p, #[trigger] stops[i], limit)
    &&& forall|i: int, j: int|
        0 <= i < stops.len() - 1 && j == i + 1 ==> #[trigger] stops[j] == #[trigger] stops[i] + 4
            + u16_at(p, stops[i] + 2)
}

/// Whether a service parameter stands at `pos` among those that start at `first`.
pub open spec fn is_param(p: Seq<u8>, first: int, limit: int, pos: int) -> bool {
    exists|stops: Seq<int>|
        #![trigger param_walk(p, stops, first, limit)]
        param_walk(p, stops, first, limit) && stops[stops.len() - 1] == pos
}

/// Whether the service parameter at `pos` lists an address at `at`: key 4 is a
/// list of IPv4 addresses of four bytes, key 6 one of IPv6 addresses of sixteen.
pub open spec fn param_lists(p: Seq<u8>, pos: int, at: int, v6: bool) -> bool {
    let from = pos + 4;
    let to = pos + 4 + u16_at(p, pos + 2);
    if v6 {
        u16_at(p, pos) == 6 && from <= at && at + 16 <= to && (at - from) % 16 == 0
    } else {
        u16_at(p, pos) == 4 && from <= at && at + 4 <= to && (at - from) % 4 == 0
    }
}

/// Whether an HTTPS or SVCB record has a service parameter at `pos`: behind its
/// priority of two bytes and its target name.
pub open spec fn record_has_param(p: Seq<u8>, record: Record, pos: int) -> bool {
    let limit = record.rdata + record.rdlen;
    &&& record.kind == 64 || record.kind == 65
    &&& exists|first: int|
        #![trigger is_param(p, first, limit, pos)]
        is_target(p, record.rdata + 2, first, limit) && is_param(p, first, limit, pos)
}

/// Whether a record holds an address at `at` that a client may connect to: all of
/// the data of an A or AAAA record, or a hint of an HTTPS or SVCB record.
pub open spec fn holds_address(p: Seq<u8>, record: Record, at: int, v6: bool) -> bool {
    ||| record.kind == 1 && record.rdlen == 4 && at == record.rdata && !v6
    ||| record.kind == 28 && record.rdlen == 16 && at == record.rdata && v6
    ||| exists|pos: int| #[trigger]
        record_has_param(p, record, pos) && param_lists(p, pos, at, v6)
}

proof fn lemma_target_from_walk(p: Seq<u8>, stops: Seq<int>, first: int, limit: int)
    requires
        limit <= p.len(),
        label_walk(p, stops, first),
        0 <= stops[stops.len() - 1] < limit,
        p[stops[stops.len() - 1]] == 0,
    ensures
        0 <= first <= stops[stops.len() - 1],
        slots::target_end(p, first, limit) == Some(stops[stops.len() - 1] + 1),
    decreases stops.len(),
{
    if stops.len() > 1 {
        lemma_walk_rest(p, stops, first);
        let rest = stops.drop_first();
        assert(rest[rest.len() - 1] == stops[stops.len() - 1]);
        lemma_target_from_walk(p, rest, stops[1], limit);
    }
}

proof fn lemma_walk_of_target(p: Seq<u8>, first: int, limit: int)
    requires
        0 <= first,
        limit <= p.len(),
        slots::target_end(p, first, limit) is Some,
    ensures
        is_target(p, first, slots::target_end(p, first, limit)->0, limit),
    decreases limit - first,
{
    if p[first] == 0 {
        assert(label_walk(p, seq![first], first));
    } else {
        let next = first + 1 + p[first];
        let end = slots::target_end(p, first, limit)->0;
        lemma_walk_of_target(p, next, limit);
        let stops = choose|stops: Seq<int>|
            #![trigger label_walk(p, stops, next)]
            label_walk(p, stops, next) && 0 <= stops[stops.len() - 1] < limit && p[stops[stops.len()
                - 1]] == 0 && end == stops[stops.len() - 1] + 1;
        lemma_walk_more(p, stops, first, next);
        let longer = seq![first] + stops;
        assert(longer[longer.len() - 1] == stops[stops.len() - 1]);
    }
}

proof fn lemma_target(p: Seq<u8>, first: int, end: int, limit: int)
    requires
        0 <= first,
        limit <= p.len(),
    ensures
        slots::target_end(p, first, limit) == Some(end) <==> is_target(p, first, end, limit),
{
    if slots::target_end(p, first, limit) == Some(end) {
        lemma_walk_of_target(p, first, limit);
    }
    if is_target(p, first, end, limit) {
        let stops = choose|stops: Seq<int>|
            #![trigger label_walk(p, stops, first)]
            label_walk(p, stops, first) && 0 <= stops[stops.len() - 1] < limit && p[stops[stops.len()
                - 1]] == 0 && end == stops[stops.len() - 1] + 1;
        lemma_target_from_walk(p, stops, first, limit);
    }
}

proof fn lemma_param_lists(p: Seq<u8>, pos: int, limit: int, at: int, v6: bool)
    requires
        0 <= pos,
        limit <= p.len(),
        p.len() <= usize::MAX,
        param_fits(p, pos, limit),
        0 <= at <= usize::MAX,
    ensures
        slots::param_slots(
            bytes::be_field(p, pos, 2),
            pos + 4,
            bytes::be_field(p, pos + 2, 2),
        ).contains(Slot { offset: at as usize, v6 }) <==> param_lists(p, pos, at, v6),
{
    law_two_bytes(p, pos);
    law_two_bytes(p, pos + 2);
    let len = bytes::be_field(p, pos + 2, 2);
    let list = slots::param_slots(bytes::be_field(p, pos, 2), pos + 4, len);
    let slot = Slot { offset: at as usize, v6 };
    if list.contains(slot) {
        let k = choose|k: int| 0 <= k < list.len() && list[k] == slot;
        assert(list[k] == slot);
    }
    if param_lists(p, pos, at, v6) {
        let k = if v6 {
            (at - (pos + 4)) / 16
        } else {
            (at - (pos + 4)) / 4
        };
        assert(0 <= k < list.len());
        assert(list[k] == slot);
    }
}

proof fn lemma_params(p: Seq<u8>, first: int, limit: int, at: int, v6: bool)
    requires
        0 <= first <= limit <= p.len(),
        p.len() <= usize::MAX,
        0 <= at <= usize::MAX,
    ensures
        slots::params_slots(p, first, limit).contains(Slot { offset: at as usize, v6 }) <==> exists|
            pos: int,
        | #[trigger] is_param(p, first, limit, pos) && param_lists(p, pos, at, v6),
    decreases limit - first,
{
    let slot = Slot { offset: at as usize, v6 };
    let all = slots::params_slots(p, first, limit);
    if first + 4 <= limit {
        law_two_bytes(p, first + 2);
    }
    if param_fits(p, first, limit) {
        let len = bytes::be_field(p, first + 2, 2);
        let next = first + 4 + len;
        let mine = slots::param_slots(bytes::be_field(p, first, 2), first + 4, len);
        let rest = slots::params_slots(p, next, limit);
        lemma_param_lists(p, first, limit, at, v6);
        lemma_params(p, next, limit, at, v6);
        assert(all == mine + rest);
        if all.contains(slot) {
            let k = choose|k: int| 0 <= k < all.len() && all[k] == slot;
            if k < mine.len() {
                assert(mine[k] == slot);
                let stops = seq![first];
                assert(param_walk(p, stops, first, limit));
                assert(is_param(p, first, limit, first));
            } else {
                assert(rest[k - mine.len()] == slot);
                let pos = choose|pos: int| #[trigger]
                    is_param(p, next, limit, pos) && param_lists(p, pos, at, v6);
                let stops = choose|stops: Seq<int>|
                    #![trigger param_walk(p, stops, next, limit)]
                    param_walk(p, stops, next, limit) && stops[stops.len() - 1] == pos;
                let longer = seq![first] + stops;
                assert forall|i: int| 0 <= i < longer.len() implies param_fits(
                    p,
                    #[trigger] longer[i],
                    limit,
                ) by {
                    if i > 0 {
                        assert(longer[i] == stops[i - 1]);
                    }
                }
                assert forall|i: int, j: int|
                    0 <= i < longer.len() - 1 && j == i + 1 implies #[trigger] longer[j]
                    == #[trigger] longer[i] + 4 + u16_at(p, longer[i] + 2) by {
                    assert(longer[j] == stops[j - 1]);
                    if i > 0 {
                        assert(longer[i] == stops[i - 1]);
                    }
                }
                assert(longer[longer.len() - 1] == pos);
                assert(param_walk(p, longer, first, limit));
                assert(is_param(p, first, limit, pos));
            }
        }
        if exists|pos: int| #[trigger]
            is_param(p, first, limit, pos) && param_lists(p, pos, at, v6) {
            let pos = choose|pos: int| #[trigger]
                is_param(p, first, limit, pos) && param_lists(p, pos, at, v6);
            let stops = choose|stops: Seq<int>|
                #![trigger param_walk(p, stops, first, limit)]
                param_walk(p, stops, first, limit) && stops[stops.len() - 1] == pos;
            if stops.len() == 1 {
                assert(mine.contains(slot));
                let k = choose|k: int| 0 <= k < mine.len() && mine[k] == slot;
                assert(all[k] == slot);
            } else {
                let fewer = stops.drop_first();
                assert(stops[1] == next);
                assert forall|i: int| 0 <= i < fewer.len() implies param_fits(
                    p,
                    #[trigger] fewer[i],
                    limit,
                ) by {
                    assert(fewer[i] == stops[i + 1]);
                }
                assert forall|i: int, j: int|
                    0 <= i < fewer.len() - 1 && j == i + 1 implies #[trigger] fewer[j]
                    == #[trigger] fewer[i] + 4 + u16_at(p, fewer[i] + 2) by {
                    assert(fewer[i] == stops[i + 1] && fewer[j] == stops[j + 1]);
                }
                assert(fewer[fewer.len() - 1] == pos);
                assert(param_walk(p, fewer, next, limit));
                assert(is_param(p, next, limit, pos));
                assert(rest.contains(slot));
                let k = choose|k: int| 0 <= k < rest.len() && rest[k] == slot;
                assert(all[mine.len() + k] == slot);
            }
        }
    } else {
        if exists|pos: int| #[trigger]
            is_param(p, first, limit, pos) && param_lists(p, pos, at, v6) {
            let pos = choose|pos: int| #[trigger]
                is_param(p, first, limit, pos) && param_lists(p, pos, at, v6);
            let stops = choose|stops: Seq<int>|
                #![trigger param_walk(p, stops, first, limit)]
                param_walk(p, stops, first, limit) && stops[stops.len() - 1] == pos;
            assert(param_fits(p, stops[0], limit));
        }
    }
}

proof fn lemma_params_go_on(p: Seq<u8>, stops: Seq<int>, first: int, limit: int)
    requires
        param_walk(p, stops, first, limit),
    ensures
        first <= stops[stops.len() - 1],
    decreases stops.len(),
{
    if stops.len() > 1 {
        let fewer = stops.drop_last();
        let n = stops.len() - 1;
        assert(fewer[n - 1] == stops[n - 1]);
        assert(stops[n] == stops[n - 1] + 4 + u16_at(p, stops[n - 1] + 2));
        assert forall|i: int| 0 <= i < fewer.len() implies param_fits(
            p,
            #[trigger] fewer[i],
            limit,
        ) by {
            assert(fewer[i] == stops[i]);
        }
        assert forall|i: int, j: int|
            0 <= i < fewer.len() - 1 && j == i + 1 implies #[trigger] fewer[j] == #[trigger] fewer[i]
            + 4 + u16_at(p, fewer[i] + 2) by {
            assert(fewer[i] == stops[i] && fewer[j] == stops[j]);
        }
        lemma_params_go_on(p, fewer, first, limit);
    }
}

/// An address that a record holds lies in its data.
pub proof fn lemma_address_in_data(p: Seq<u8>, record: Record, at: int, v6: bool)
    requires
        record.end() <= p.len(),
        holds_address(p, record, at, v6),
    ensures
        record.rdata <= at,
        v6 ==> at + 16 <= record.end(),
        !v6 ==> at + 4 <= record.end(),
{
    let limit = record.end();
    if exists|pos: int| #[trigger]
        record_has_param(p, record, pos) && param_lists(p, pos, at, v6) {
        let pos = choose|pos: int| #[trigger]
            record_has_param(p, record, pos) && param_lists(p, pos, at, v6);
        let first = choose|first: int|
            #![trigger is_param(p, first, limit, pos)]
            is_target(p, record.rdata + 2, first, limit) && is_param(p, first, limit, pos);
        lemma_target(p, record.rdata + 2, first, limit);
        slots::lemma_target_end_bounds(p, record.rdata + 2, limit);
        let stops = choose|stops: Seq<int>|
            #![trigger param_walk(p, stops, first, limit)]
            param_walk(p, stops, first, limit) && stops[stops.len() - 1] == pos;
        lemma_params_go_on(p, stops, first, limit);
        assert(param_fits(p, stops[stops.len() - 1], limit));
    }
}

/// The addresses that are looked at in a record are exactly those that its bytes
/// hold: the data of an A record of four bytes or of an AAAA record of sixteen,
/// and every whole address that an IPv4 or IPv6 hint of an HTTPS or SVCB record
/// lists.
pub proof fn law_addresses_of_a_record(p: Seq<u8>, record: Record, at: int, v6: bool)
    requires
        p.len() <= usize::MAX,
        record.end() <= p.len(),
        0 <= at <= usize::MAX,
    ensures
        slots::record_slots(p, record).contains(Slot { offset: at as usize, v6 }) <==> holds_address(
            p,
            record,
            at,
            v6,
        ),
{
    let slot = Slot { offset: at as usize, v6 };
    let list = slots::record_slots(p, record);
    let limit = record.end();
    if record.kind == 1 || record.kind == 28 {
        if list.len() > 0 {
            assert(list[0] == slot <==> list.contains(slot));
        }
    } else if record.kind == 64 || record.kind == 65 {
        if list.contains(slot) {
            let first = slots::target_end(p, record.rdata + 2, limit)->0;
            lemma_target(p, record.rdata + 2, first, limit);
            slots::lemma_target_end_bounds(p, record.rdata + 2, limit);
            lemma_params(p, first, limit, at, v6);
            let pos = choose|pos: int| #[trigger]
                is_param(p, first, limit, pos) && param_lists(p, pos, at, v6);
            assert(record_has_param(p, record, pos));
        }
        if holds_address(p, record, at, v6) {
            let pos = choose|pos: int| #[trigger]
                record_has_param(p, record, pos) && param_lists(p, pos, at, v6);
            let first = choose|first: int|
                #![trigger is_param(p, first, limit, pos)]
                is_target(p, record.rdata + 2, first, limit) && is_param(p, first, limit, pos);
            lemma_target(p, record.rdata + 2, first, limit);
            slots::lemma_target_end_bounds(p, record.rdata + 2, limit);
            lemma_params(p, first, limit, at, v6);
        }
    }
}

} // verus!
