//! The layout of a DNS message: names, questions and resource records.

use crate::bytes;
use crate::bytes::{be16, write_be};
use crate::text;
use crate::text::{chars_of, lower_char};
use vstd::prelude::*;
use vstd::utf8;

verus! {

/// Size of the fixed header in front of the questions.
pub const HEADER: usize = 12;

/// Where the domain name at `pos` ends: behind its terminating zero byte or
/// behind the first compression pointer, which is not followed. `None` where
/// the name runs out of the message or holds a reserved label type.
pub open spec fn name_end(packet: Seq<u8>, pos: int) -> Option<int>
    decreases packet.len() - pos,
{
    if !(0 <= pos < packet.len()) {
        None
    } else if packet[pos] >= 0xc0 {
        if pos + 1 < packet.len() {
            Some(pos + 2)
        } else {
            None
        }
    } else if packet[pos] >= 0x40 {
        None
    } else if packet[pos] == 0 {
        Some(pos + 1)
    } else if pos + 1 + packet[pos] > packet.len() {
        None
    } else {
        name_end(packet, pos + 1 + packet[pos])
    }
}

pub proof fn lemma_name_end_bounds(packet: Seq<u8>, pos: int)
    requires
        name_end(packet, pos) is Some,
    ensures
        0 <= pos < name_end(packet, pos)->0 <= packet.len(),
    decreases packet.len() - pos,
{
    if packet[pos] < 0x40 && packet[pos] != 0 {
        lemma_name_end_bounds(packet, pos + 1 + packet[pos]);
    }
}

/// A name is read the same wherever the same bytes stand.
pub proof fn lemma_name_end_moved(before: Seq<u8>, pos: int, after: Seq<u8>, at: int)
    requires
        name_end(before, pos) is Some,
        0 <= at,
        at + name_end(before, pos)->0 - pos <= after.len(),
        forall|k: int|
            pos <= k < name_end(before, pos)->0 ==> #[trigger] before[k] == after[at + k - pos],
    ensures
        name_end(after, at) == Some(at + name_end(before, pos)->0 - pos),
    decreases before.len() - pos,
{
    lemma_name_end_bounds(before, pos);
    assert(before[pos] == after[at]);
    if before[pos] < 0x40 && before[pos] != 0 {
        lemma_name_end_bounds(before, pos + 1 + before[pos]);
        assert forall|k: int|
            pos + 1 + before[pos] <= k < name_end(before, pos)->0 implies #[trigger] before[k]
            == after[at + 1 + before[pos] + k - (pos + 1 + before[pos])] by {
            assert(before[k] == after[at + k - pos]);
        }
        lemma_name_end_moved(before, pos + 1 + before[pos], after, at + 1 + before[pos]);
    }
}

/// Finds the end of the name at `pos`.
pub fn skip_name(packet: &[u8], pos: usize) -> (end: Option<usize>)
    ensures
        match end {
            Some(end) => name_end(packet@, pos as int) == Some(end as int),
            None => name_end(packet@, pos as int) is None,
        },
{
    let len: usize = packet.len();
    let mut at: usize = pos;
    loop
        invariant
            len == packet@.len(),
            name_end(packet@, at as int) == name_end(packet@, pos as int),
        decreases len - at,
    {
        if at >= len {
            return None;
        }
        let n: u8 = packet[at];
        if n >= 0xc0 {
            if len - at < 2 {
                return None;
            }
            return Some(at + 2);
        }
        if n >= 0x40 {
            return None;
        }
        if n == 0 {
            return Some(at + 1);
        }
        if len - at - 1 < n as usize {
            return None;
        }
        at = at + 1 + n as usize;
    }
}

/// A resource record, by the places of its parts in the message.
#[derive(Clone, Copy, Debug, PartialEq, Eq)]
pub struct Record {
    /// First byte of the owner name.
    pub start: usize,
    /// The record type.
    pub kind: u16,
    /// First byte of the TTL field.
    pub ttl: usize,
    /// Length of the record data.
    pub rdlen: usize,
    /// First byte of the record data.
    pub rdata: usize,
    /// Whether the record stands in the answer section.
    pub answer: bool,
}

impl Record {
    /// The first byte behind the record.
    pub open spec fn end(self) -> int {
        self.rdata + self.rdlen
    }
}

/// Where the first `count` questions from `pos` on end.
pub open spec fn questions_end(packet: Seq<u8>, pos: int, count: nat) -> Option<int>
    decreases count,
{
    if count == 0 {
        Some(pos)
    } else {
        match name_end(packet, pos) {
            None => None,
            Some(end) => if end + 4 > packet.len() {
                None
            } else {
                questions_end(packet, end + 4, (count - 1) as nat)
            },
        }
    }
}

/// The record that starts at `start`, where the message holds all of it.
pub open spec fn record_at(packet: Seq<u8>, start: int, answer: bool) -> Option<Record> {
    match name_end(packet, start) {
        None => None,
        Some(head) => if head + 10 > packet.len() {
            None
        } else if head + 10 + bytes::be_field(packet, head + 8, 2) > packet.len() {
            None
        } else {
            Some(
                Record {
                    start: start as usize,
                    kind: bytes::be_field(packet, head, 2) as u16,
                    ttl: (head + 4) as usize,
                    rdlen: bytes::be_field(packet, head + 8, 2) as usize,
                    rdata: (head + 10) as usize,
                    answer,
                },
            )
        },
    }
}

/// The records number `index` to `total - 1`, the first of which starts at
/// `pos`; those below `answers` belong to the answer section.
pub open spec fn records_from(
    packet: Seq<u8>,
    pos: int,
    index: nat,
    answers: nat,
    total: nat,
) -> Option<Seq<Record>>
    decreases total - index,
{
    if index >= total {
        Some(Seq::empty())
    } else {
        match record_at(packet, pos, index < answers) {
            None => None,
            Some(record) => match records_from(packet, record.end(), index + 1, answers, total) {
                None => None,
                Some(rest) => Some(seq![record] + rest),
            },
        }
    }
}

/// How many records the header announces, over the three sections.
pub open spec fn announced(packet: Seq<u8>) -> nat {
    bytes::be_field(packet, 6, 2) + bytes::be_field(packet, 8, 2) + bytes::be_field(packet, 10, 2)
}

/// Every record of the message in order; `None` where the message is cut
/// short or malformed.
pub open spec fn records_of(packet: Seq<u8>) -> Option<Seq<Record>> {
    if packet.len() < HEADER {
        None
    } else {
        match questions_end(packet, HEADER as int, bytes::be_field(packet, 4, 2)) {
            None => None,
            Some(pos) => records_from(packet, pos, 0, bytes::be_field(packet, 6, 2), announced(packet)),
        }
    }
}

/// Whether the records lie between `low` and `high` in order, without overlap,
/// each with its TTL field between its owner name and its data.
pub open spec fn laid_out(records: Seq<Record>, low: int, high: int) -> bool {
    &&& forall|i: int|
        0 <= i < records.len() ==> {
            &&& low <= (#[trigger] records[i]).start
            &&& records[i].start + 5 <= records[i].ttl
            &&& records[i].ttl + 6 == records[i].rdata
            &&& records[i].end() <= high
        }
    &&& forall|i: int, j: int|
        0 <= i < j < records.len() ==> (#[trigger] records[i]).end() <= (
        #[trigger] records[j]).start
}

pub proof fn lemma_questions_end_bounds(packet: Seq<u8>, pos: int, count: nat)
    requires
        0 <= pos <= packet.len(),
        questions_end(packet, pos, count) is Some,
    ensures
        pos <= questions_end(packet, pos, count)->0 <= packet.len(),
    decreases count,
{
    if count > 0 {
        lemma_name_end_bounds(packet, pos);
        lemma_questions_end_bounds(packet, name_end(packet, pos)->0 + 4, (count - 1) as nat);
    }
}

proof fn lemma_records_from_laid_out(
    packet: Seq<u8>,
    pos: int,
    index: nat,
    answers: nat,
    total: nat,
)
    requires
        packet.len() <= usize::MAX,
        0 <= pos <= packet.len(),
        records_from(packet, pos, index, answers, total) is Some,
    ensures
        laid_out(
            records_from(packet, pos, index, answers, total)->0,
            pos,
            packet.len() as int,
        ),
    decreases total - index,
{
    if index < total {
        let record = record_at(packet, pos, index < answers)->0;
        lemma_name_end_bounds(packet, pos);
        lemma_records_from_laid_out(packet, record.end(), index + 1, answers, total);
    }
}

/// The records of a message follow each other behind the questions.
pub proof fn lemma_records_behind_questions(packet: Seq<u8>)
    requires
        packet.len() <= usize::MAX,
        records_of(packet) is Some,
    ensures
        ({
            let first = questions_end(packet, HEADER as int, bytes::be_field(packet, 4, 2));
            &&& first is Some
            &&& HEADER <= first->0 <= packet.len()
            &&& laid_out(records_of(packet)->0, first->0, packet.len() as int)
        }),
{
    let count = bytes::be_field(packet, 4, 2);
    let pos = questions_end(packet, HEADER as int, count)->0;
    lemma_questions_end_bounds(packet, HEADER as int, count);
    lemma_records_from_laid_out(packet, pos, 0, bytes::be_field(packet, 6, 2), announced(packet));
}

/// The records of a message follow each other behind the header.
pub proof fn lemma_records_laid_out(packet: Seq<u8>)
    requires
        packet.len() <= usize::MAX,
        records_of(packet) is Some,
    ensures
        packet.len() >= HEADER,
        laid_out(records_of(packet)->0, HEADER as int, packet.len() as int),
{
    lemma_records_behind_questions(packet);
}

proof fn lemma_records_from_found(
    packet: Seq<u8>,
    pos: int,
    index: nat,
    answers: nat,
    total: nat,
    i: int,
)
    requires
        packet.len() <= usize::MAX,
        0 <= pos <= packet.len(),
        records_from(packet, pos, index, answers, total) is Some,
        0 <= i < records_from(packet, pos, index, answers, total)->0.len(),
    ensures
        ({
            let record = records_from(packet, pos, index, answers, total)->0[i];
            record_at(packet, record.start as int, record.answer) == Some(record)
        }),
    decreases total - index,
{
    if index < total {
        let record = record_at(packet, pos, index < answers)->0;
        lemma_name_end_bounds(packet, pos);
        if i > 0 {
            lemma_records_from_found(packet, record.end(), index + 1, answers, total, i - 1);
        }
    }
}

/// Each record of a message is the one that starts where it says.
pub proof fn lemma_record_found(packet: Seq<u8>, i: int)
    requires
        packet.len() <= usize::MAX,
        records_of(packet) is Some,
        0 <= i < records_of(packet)->0.len(),
    ensures
        ({
            let record = records_of(packet)->0[i];
            record_at(packet, record.start as int, record.answer) == Some(record)
        }),
{
    let count = bytes::be_field(packet, 4, 2);
    lemma_questions_end_bounds(packet, HEADER as int, count);
    lemma_records_from_found(
        packet,
        questions_end(packet, HEADER as int, count)->0,
        0,
        bytes::be_field(packet, 6, 2),
        announced(packet),
        i,
    );
}

/// A record reads the same wherever the same bytes stand.
pub proof fn lemma_record_moved(
    before: Seq<u8>,
    record: Record,
    after: Seq<u8>,
    at: int,
    answer: bool,
)
    requires
        before.len() <= usize::MAX,
        after.len() <= usize::MAX,
        record_at(before, record.start as int, record.answer) == Some(record),
        0 <= at,
        at + record.end() - record.start <= after.len(),
        forall|k: int|
            record.start <= k < record.end() ==> #[trigger] before[k] == after[at + k
                - record.start],
    ensures
        record.start < record.end() <= before.len(),
        record_at(after, at, answer) == Some(
            Record {
                start: at as usize,
                kind: record.kind,
                ttl: (at + record.ttl - record.start) as usize,
                rdlen: record.rdlen,
                rdata: (at + record.rdata - record.start) as usize,
                answer,
            },
        ),
{
    let start = record.start as int;
    let head = name_end(before, start)->0;
    let moved = at + head - start;
    lemma_name_end_bounds(before, start);
    lemma_name_end_moved(before, start, after, at);
    assert forall|k: int| head <= k < head + 10 implies #[trigger] before[k] == after[moved + k
        - head] by {
        assert(before[k] == after[at + k - start]);
    }
    assert(before.subrange(head, head + 2) =~= after.subrange(moved, moved + 2)) by {
        assert(before[head] == after[moved]);
        assert(before[head + 1] == after[moved + 1]);
    }
    assert(before.subrange(head + 8, head + 10) =~= after.subrange(moved + 8, moved + 10)) by {
        assert(before[head + 8] == after[moved + 8]);
        assert(before[head + 9] == after[moved + 9]);
    }
}

/// Whether byte `k` belongs to no TTL field and to no data of the records: it is
/// part of the names, types, classes and lengths that hold the message together.
pub open spec fn is_frame(records: Seq<Record>, k: int) -> bool {
    forall|i: int|
        0 <= i < records.len() ==> !((#[trigger] records[i]).ttl <= k < records[i].ttl + 4) && !(
        records[i].rdata <= k < records[i].end())
}

proof fn lemma_questions_end_stable(before: Seq<u8>, after: Seq<u8>, pos: int, count: nat)
    requires
        before.len() == after.len(),
        0 <= pos <= before.len(),
        questions_end(before, pos, count) is Some,
        forall|k: int| pos <= k < questions_end(before, pos, count)->0 ==> before[k] == after[k],
    ensures
        questions_end(after, pos, count) == questions_end(before, pos, count),
    decreases count,
{
    if count > 0 {
        let end = name_end(before, pos)->0;
        lemma_name_end_bounds(before, pos);
        lemma_questions_end_bounds(before, end + 4, (count - 1) as nat);
        lemma_name_end_moved(before, pos, after, pos);
        lemma_questions_end_stable(before, after, end + 4, (count - 1) as nat);
    }
}

proof fn lemma_records_from_stable(
    before: Seq<u8>,
    after: Seq<u8>,
    pos: int,
    index: nat,
    answers: nat,
    total: nat,
)
    requires
        before.len() == after.len(),
        before.len() <= usize::MAX,
        0 <= pos <= before.len(),
        records_from(before, pos, index, answers, total) is Some,
        forall|k: int|
            pos <= k < before.len() && is_frame(
                records_from(before, pos, index, answers, total)->0,
                k,
            ) ==> #[trigger] before[k] == after[k],
    ensures
        records_from(after, pos, index, answers, total) == records_from(
            before,
            pos,
            index,
            answers,
            total,
        ),
    decreases total - index,
{
    if index < total {
        let all = records_from(before, pos, index, answers, total)->0;
        let record = record_at(before, pos, index < answers)->0;
        let rest = records_from(before, record.end(), index + 1, answers, total)->0;
        let head = name_end(before, pos)->0;
        lemma_name_end_bounds(before, pos);
        lemma_records_from_laid_out(before, pos, index, answers, total);
        lemma_records_from_laid_out(before, record.end(), index + 1, answers, total);
        assert(all =~= seq![record] + rest);
        assert(all[0] == record);
        assert forall|k: int|
            pos <= k < record.end() && !(record.ttl <= k < record.ttl + 4) && !(record.rdata <= k
                < record.end()) implies #[trigger] before[k] == after[k] by {
            assert forall|i: int| 0 <= i < all.len() implies !((#[trigger] all[i]).ttl <= k
                < all[i].ttl + 4) && !(all[i].rdata <= k < all[i].end()) by {
                if i > 0 {
                    assert(all[0].end() <= all[i].start);
                }
            }
            assert(is_frame(all, k));
        }
        lemma_name_end_moved(before, pos, after, pos);
        assert(before.subrange(head, head + 2) =~= after.subrange(head, head + 2));
        assert(before.subrange(head + 8, head + 10) =~= after.subrange(head + 8, head + 10));
        assert(record_at(after, pos, index < answers) == Some(record));
        assert forall|k: int| record.end() <= k < before.len() && is_frame(rest, k) implies #[trigger]
            before[k] == after[k] by {
            assert forall|i: int| 0 <= i < all.len() implies !((#[trigger] all[i]).ttl <= k
                < all[i].ttl + 4) && !(all[i].rdata <= k < all[i].end()) by {
                if i > 0 {
                    assert(all[i] == rest[i - 1]);
                }
            }
            assert(is_frame(all, k));
        }
        lemma_records_from_stable(before, after, record.end(), index + 1, answers, total);
    }
}

/// Two messages of one length that agree from byte 4 on, but for TTL fields and
/// the data of records, have the same records.
pub proof fn lemma_records_stable(before: Seq<u8>, after: Seq<u8>)
    requires
        before.len() == after.len(),
        before.len() <= usize::MAX,
        records_of(before) is Some,
        forall|k: int|
            4 <= k < before.len() && is_frame(records_of(before)->0, k) ==> #[trigger] before[k]
                == after[k],
    ensures
        records_of(after) == records_of(before),
{
    let records = records_of(before)->0;
    let count = bytes::be_field(before, 4, 2);
    let first = questions_end(before, HEADER as int, count)->0;
    lemma_questions_end_bounds(before, HEADER as int, count);
    lemma_records_from_laid_out(
        before,
        first,
        0,
        bytes::be_field(before, 6, 2),
        announced(before),
    );
    assert forall|k: int| 4 <= k < first implies #[trigger] before[k] == after[k] by {
        assert(is_frame(records, k)) by {
            assert forall|i: int| 0 <= i < records.len() implies !((#[trigger] records[i]).ttl <= k
                < records[i].ttl + 4) && !(records[i].rdata <= k < records[i].end()) by {
                assert(first <= records[i].start);
            }
        }
    }
    assert(before.subrange(4, 6) =~= after.subrange(4, 6));
    assert(before.subrange(6, 8) =~= after.subrange(6, 8));
    assert(before.subrange(8, 10) =~= after.subrange(8, 10));
    assert(before.subrange(10, 12) =~= after.subrange(10, 12));
    lemma_questions_end_stable(before, after, HEADER as int, count);
    lemma_records_from_stable(
        before,
        after,
        first,
        0,
        bytes::be_field(before, 6, 2),
        announced(before),
    );
}

/// Lists the records of the message.
pub fn resource_records(packet: &[u8]) -> (records: Option<Vec<Record>>)
    ensures
        match records {
            Some(records) => records_of(packet@) == Some(records@),
            None => records_of(packet@) is None,
        },
{
    let len: usize = packet.len();
    if len < HEADER {
        return None;
    }
    let (qd, an, ns, ar) = match (be16(packet, 4), be16(packet, 6), be16(packet, 8), be16(packet, 10)) {
        (Some(qd), Some(an), Some(ns), Some(ar)) => (
            qd as usize,
            an as usize,
            ns as usize,
            ar as usize,
        ),
        _ => {
            return None;
        },
    };
    let total: usize = an + ns + ar;
    let mut pos: usize = HEADER;
    let mut left: usize = qd;
    while left > 0
        invariant
            len == packet@.len(),
            questions_end(packet@, pos as int, left as nat) == questions_end(
                packet@,
                HEADER as int,
                qd as nat,
            ),
            HEADER <= len,
            qd == bytes::be_field(packet@, 4, 2),
        decreases left,
    {
        let end: usize = match skip_name(packet, pos) {
            Some(end) => end,
            None => {
                return None;
            },
        };
        proof {
            lemma_name_end_bounds(packet@, pos as int);
        }
        if len - end < 4 {
            return None;
        }
        pos = end + 4;
        left = left - 1;
    }
    let ghost first = pos as int;
    let mut records: Vec<Record> = Vec::new();
    let mut index: usize = 0;
    while index < total
        invariant
            index <= total,
            len == packet@.len(),
            records_of(packet@) == records_from(packet@, first, 0, an as nat, total as nat),
            match records_from(packet@, pos as int, index as nat, an as nat, total as nat) {
                None => records_of(packet@) is None,
                Some(rest) => records_of(packet@) == Some(records@ + rest),
            },
        decreases total - index,
    {
        let ghost before = records@;
        let head: usize = match skip_name(packet, pos) {
            Some(head) => head,
            None => {
                return None;
            },
        };
        proof {
            lemma_name_end_bounds(packet@, pos as int);
        }
        if len - head < 10 {
            return None;
        }
        let (kind, rdlen) = match (be16(packet, head), be16(packet, head + 8)) {
            (Some(kind), Some(rdlen)) => (kind, rdlen as usize),
            _ => {
                return None;
            },
        };
        let rdata: usize = head + 10;
        if len - rdata < rdlen {
            return None;
        }
        let record = Record { start: pos, kind, ttl: head + 4, rdlen, rdata, answer: index < an };
        assert(record_at(packet@, pos as int, index < an) == Some(record));
        records.push(record);
        pos = rdata + rdlen;
        index = index + 1;
        proof {
            let rest = records_from(packet@, pos as int, index as nat, an as nat, total as nat);
            if rest is Some {
                assert(before + (seq![record] + rest->0) == records@ + rest->0);
            }
        }
    }
    assert(records@ + Seq::<Record>::empty() == records@);
    Some(records)
}

/// The length-prefixed form in which a message travels over TCP, ready for a
/// single write. The prefix holds the length modulo 65536.
pub fn tcp_frame(message: &[u8]) -> (frame: Vec<u8>)
    ensures
        frame@ == be_bytes_of_len(message@.len()) + message@,
{
    let len: usize = message.len();
    let mut frame: Vec<u8> = write_be((len % 0x1_0000) as u128, 2);
    frame.extend_from_slice(message);
    assert(frame@ == be_bytes_of_len(message@.len()) + message@);
    frame
}

/// The two bytes that announce a message of `len` bytes over TCP.
pub open spec fn be_bytes_of_len(len: nat) -> Seq<u8> {
    bytes::be_bytes(len % 0x1_0000, 2)
}

/// A message of up to 65535 bytes, the most that the prefix can announce, is
/// read back whole from its frame: the prefix holds its length, and it stands
/// behind the prefix.
pub proof fn law_frame_reads_back(message: Seq<u8>)
    requires
        message.len() <= 0xffff,
    ensures
        ({
            let frame = be_bytes_of_len(message.len()) + message;
            &&& bytes::be_field(frame, 0, 2) == message.len()
            &&& frame.skip(2) == message
        }),
{
    let prefix = be_bytes_of_len(message.len());
    let frame = prefix + message;
    bytes::lemma_pow256_values();
    bytes::law_be_bytes_then_value(message.len(), 2);
    assert(frame.subrange(0, 2) =~= prefix);
    assert(frame.skip(2) =~= message);
}

/// The most compression pointers that one name may follow.
pub const MAX_JUMPS: usize = 128;

/// Wraps `std::str::from_utf8`: a byte sequence is text exactly where it is
/// valid UTF-8, and the text is what the bytes decode to.
#[verifier::external_body]
fn utf8_text(bytes: &[u8]) -> (text: Option<&str>)
    ensures
        text is Some == utf8::valid_utf8(bytes@),
        text matches Some(text) ==> text@ == utf8::decode_utf8(bytes@),
{
    std::str::from_utf8(bytes).ok()
}

/// The labels of the name at `pos`, in lower case, after `jumps` pointers were
/// followed. Pointers are followed up to the limit. `None` where the name is
/// cut short, points too often, or holds a label that is not text.
pub open spec fn name_labels(packet: Seq<u8>, pos: int, jumps: nat) -> Option<Seq<Seq<char>>>
    decreases MAX_JUMPS - jumps, packet.len() - pos,
{
    if !(0 <= pos < packet.len()) {
        None
    } else if packet[pos] >= 0xc0 {
        if pos + 1 < packet.len() && jumps < MAX_JUMPS {
            name_labels(packet, pointer_target(packet, pos), jumps + 1)
        } else {
            None
        }
    } else if packet[pos] >= 0x40 {
        None
    } else if packet[pos] == 0 {
        Some(Seq::empty())
    } else {
        let next = pos + 1 + packet[pos];
        let label = packet.subrange(pos + 1, next);
        if next > packet.len() || !utf8::valid_utf8(label) {
            None
        } else {
            match name_labels(packet, next, jumps) {
                Some(rest) => Some(seq![text::lowered(utf8::decode_utf8(label))] + rest),
                None => None,
            }
        }
    }
}

/// Where the compression pointer at `pos` points.
pub open spec fn pointer_target(packet: Seq<u8>, pos: int) -> int {
    (packet[pos] - 0xc0) * 0x100 + packet[pos + 1]
}

/// The labels with dots between them.
pub open spec fn dotted(labels: Seq<Seq<char>>) -> Seq<char>
    decreases labels.len(),
{
    if labels.len() == 0 {
        Seq::empty()
    } else if labels.len() == 1 {
        labels[0]
    } else {
        dotted(labels.drop_last()).push('.') + labels.last()
    }
}

/// Appends `label` in lower case, after a dot unless it is the first.
fn push_label(name: &mut String, label: &str, first: bool)
    ensures
        final(name)@ == (if first {
            old(name)@
        } else {
            old(name)@.push('.')
        }) + text::lowered(label@),
{
    let chars: Vec<char> = chars_of(label);
    if !first {
        name.push('.');
    }
    let ghost start = name@;
    let mut done: usize = 0;
    while done < chars.len()
        invariant
            done <= chars@.len(),
            name@ == start + text::lowered(chars@).take(done as int),
        decreases chars@.len() - done,
    {
        name.push(lower_char(chars[done]));
        done = done + 1;
        assert(name@ =~= start + text::lowered(chars@).take(done as int));
    }
    assert(text::lowered(chars@).take(chars@.len() as int) == text::lowered(chars@));
}

/// Decodes the name at `start`, following compression pointers; gives its
/// labels with dots between them, in lower case, and where the name ends.
pub fn decode_name(packet: &[u8], start: usize) -> (name: Option<(String, usize)>)
    ensures
        match name {
            Some((name, end)) => {
                &&& name_labels(packet@, start as int, 0) is Some
                &&& name@ == dotted(name_labels(packet@, start as int, 0)->0)
                &&& name_end(packet@, start as int) == Some(end as int)
            },
            None => name_labels(packet@, start as int, 0) is None,
        },
{
    let len: usize = packet.len();
    let mut name: String = String::new();
    let mut first: bool = true;
    let mut pos: usize = start;
    let mut end: Option<usize> = None;
    let mut jumps: usize = 0;
    let ghost mut labels: Seq<Seq<char>> = Seq::empty();
    let ghost whole = name_labels(packet@, start as int, 0);
    loop
        invariant
            len == packet@.len(),
            jumps <= MAX_JUMPS,
            name@ == dotted(labels),
            first == (labels.len() == 0),
            whole == name_labels(packet@, start as int, 0),
            match name_labels(packet@, pos as int, jumps as nat) {
                Some(rest) => whole == Some(labels + rest),
                None => whole is None,
            },
            match end {
                Some(end) => name_end(packet@, start as int) == Some(end as int),
                None => name_end(packet@, start as int) == name_end(packet@, pos as int),
            },
        decreases MAX_JUMPS - jumps, len - pos,
    {
        if pos >= len {
            return None;
        }
        let n: u8 = packet[pos];
        if n >= 0xc0 {
            if len - pos < 2 || jumps >= MAX_JUMPS {
                return None;
            }
            let target: usize = (n - 0xc0) as usize * 0x100 + packet[pos + 1] as usize;
            if end.is_none() {
                end = Some(pos + 2);
            }
            pos = target;
            jumps = jumps + 1;
            continue;
        }
        if n >= 0x40 {
            return None;
        }
        if n == 0 {
            assert(labels + Seq::<Seq<char>>::empty() == labels);
            let end: usize = match end {
                Some(end) => end,
                None => pos + 1,
            };
            return Some((name, end));
        }
        if len - pos - 1 < n as usize {
            return None;
        }
        let next: usize = pos + 1 + n as usize;
        let bytes: &[u8] = vstd::slice::slice_subrange(packet, pos + 1, next);
        let label: &str = match utf8_text(bytes) {
            Some(label) => label,
            None => {
                return None;
            },
        };
        push_label(&mut name, label, first);
        first = false;
        proof {
            let more = labels.push(text::lowered(label@));
            assert(more.drop_last() == labels);
            assert(name@ =~= dotted(more));
            let rest = name_labels(packet@, next as int, jumps as nat);
            if rest is Some {
                assert(labels + (seq![text::lowered(label@)] + rest->0) == more + rest->0);
            }
            labels = more;
        }
        pos = next;
    }
}

/// The name that the first question asks for.
pub open spec fn asked_name(packet: Seq<u8>) -> Option<Seq<char>> {
    if packet.len() < 6 || bytes::be_field(packet, 4, 2) == 0 {
        None
    } else {
        match name_labels(packet, HEADER as int, 0) {
            Some(labels) => Some(dotted(labels)),
            None => None,
        }
    }
}

/// A byte with an ASCII letter in lower case.
pub open spec fn lower_byte(b: u8) -> u8 {
    if 0x41 <= b <= 0x5a {
        (b + 0x20) as u8
    } else {
        b
    }
}

/// Whether the name at `pos` is written out: no compression pointer is met.
pub open spec fn uncompressed(packet: Seq<u8>, pos: int) -> bool
    decreases packet.len() - pos,
{
    if !(0 <= pos < packet.len()) || packet[pos] == 0 {
        true
    } else if packet[pos] >= 0x40 {
        packet[pos] < 0xc0
    } else if pos + 1 + packet[pos] > packet.len() {
        true
    } else {
        uncompressed(packet, pos + 1 + packet[pos])
    }
}

/// Whether byte `k` belongs to the text of a label of the name at `pos`.
pub open spec fn in_label(packet: Seq<u8>, pos: int, k: int) -> bool
    decreases packet.len() - pos,
{
    if !(0 <= pos < packet.len()) || packet[pos] == 0 || packet[pos] >= 0x40 {
        false
    } else {
        pos < k <= pos + packet[pos] || (pos + 1 + packet[pos] <= packet.len() && in_label(
            packet,
            pos + 1 + packet[pos],
            k,
        ))
    }
}

/// Whether two messages differ at most in the case of ASCII letters inside the
/// labels of the name at `pos`.
pub open spec fn same_but_case(a: Seq<u8>, b: Seq<u8>, pos: int) -> bool {
    &&& a.len() == b.len()
    &&& forall|k: int|
        0 <= k < a.len() ==> #[trigger] a[k] == b[k] || (in_label(a, pos, k) && lower_byte(a[k])
            == lower_byte(b[k]))
}

proof fn lemma_text_ignores_case(a: Seq<u8>, b: Seq<u8>)
    requires
        a.len() == b.len(),
        forall|i: int| 0 <= i < a.len() ==> lower_byte(#[trigger] a[i]) == lower_byte(b[i]),
    ensures
        utf8::valid_utf8(a) == utf8::valid_utf8(b),
        utf8::valid_utf8(a) ==> text::lowered(utf8::decode_utf8(a)) == text::lowered(
            utf8::decode_utf8(b),
        ),
    decreases a.len(),
{
    if a.len() > 0 {
        assert(lower_byte(a[0]) == lower_byte(b[0]));
        if a.len() > 1 {
            assert(lower_byte(a[1]) == lower_byte(b[1]));
        }
        if a.len() > 2 {
            assert(lower_byte(a[2]) == lower_byte(b[2]));
        }
        if a.len() > 3 {
            assert(lower_byte(a[3]) == lower_byte(b[3]));
        }
        let first = a[0];
        let other = b[0];
        if first < 0x80 {
            assert(first & 0x7f == first) by (bit_vector)
                requires
                    first < 0x80,
            ;
            assert(other & 0x7f == other) by (bit_vector)
                requires
                    other < 0x80,
            ;
        }
        assert(utf8::valid_first_scalar(a) == utf8::valid_first_scalar(b));
        if utf8::valid_first_scalar(a) {
            let rest_a = utf8::pop_first_scalar(a);
            let rest_b = utf8::pop_first_scalar(b);
            let size = utf8::length_of_first_scalar(a);
            assert(utf8::length_of_first_scalar(b) == size);
            assert forall|i: int| 0 <= i < rest_a.len() implies lower_byte(#[trigger] rest_a[i])
                == lower_byte(rest_b[i]) by {
                assert(lower_byte(a[size + i]) == lower_byte(b[size + i]));
            }
            lemma_text_ignores_case(rest_a, rest_b);
            if utf8::valid_utf8(a) {
                let head_a = utf8::decode_first_scalar(a) as char;
                let head_b = utf8::decode_first_scalar(b) as char;
                assert(text::lower(head_a) == text::lower(head_b));
                let tail_a = utf8::decode_utf8(rest_a);
                let tail_b = utf8::decode_utf8(rest_b);
                assert(text::lowered(seq![head_a] + tail_a) =~= seq![text::lower(head_a)]
                    + text::lowered(tail_a));
                assert(text::lowered(seq![head_b] + tail_b) =~= seq![text::lower(head_b)]
                    + text::lowered(tail_b));
            }
        }
    }
}

proof fn lemma_labels_start_behind(packet: Seq<u8>, pos: int, k: int)
    requires
        in_label(packet, pos, k),
    ensures
        pos < k,
    decreases packet.len() - pos,
{
    if !(pos < k <= pos + packet[pos]) {
        lemma_labels_start_behind(packet, pos + 1 + packet[pos], k);
    }
}

proof fn lemma_labels_ignore_case(a: Seq<u8>, b: Seq<u8>, pos: int, jumps: nat)
    requires
        0 <= pos,
        a.len() == b.len(),
        uncompressed(a, pos),
        forall|k: int|
            pos <= k < a.len() ==> #[trigger] a[k] == b[k] || (in_label(a, pos, k) && lower_byte(
                a[k],
            ) == lower_byte(b[k])),
    ensures
        name_labels(a, pos, jumps) == name_labels(b, pos, jumps),
    decreases a.len() - pos,
{
    if pos < a.len() {
        if in_label(a, pos, pos) {
            lemma_labels_start_behind(a, pos, pos);
        }
        assert(a[pos] == b[pos]);
        let next = pos + 1 + a[pos];
        if 0 < a[pos] < 0x40 && next <= a.len() {
            let mine = a.subrange(pos + 1, next);
            let theirs = b.subrange(pos + 1, next);
            assert forall|i: int| 0 <= i < mine.len() implies lower_byte(#[trigger] mine[i])
                == lower_byte(theirs[i]) by {
                assert(a[pos + 1 + i] == b[pos + 1 + i] || lower_byte(a[pos + 1 + i])
                    == lower_byte(b[pos + 1 + i]));
            }
            lemma_text_ignores_case(mine, theirs);
            lemma_labels_ignore_case(a, b, next, jumps);
        }
    }
}

/// The asked name does not depend on the case of its letters: two messages that
/// differ at most in the case of ASCII letters inside the labels of the first
/// question, written out without pointers, ask for the same name, or neither
/// asks for one.
pub proof fn law_asked_name_ignores_case(a: Seq<u8>, b: Seq<u8>)
    requires
        uncompressed(a, HEADER as int),
        same_but_case(a, b, HEADER as int),
    ensures
        asked_name(a) == asked_name(b),
{
    if a.len() >= 6 {
        assert forall|k: int| 4 <= k < 6 implies #[trigger] a[k] == b[k] by {
            if in_label(a, HEADER as int, k) {
                lemma_labels_start_behind(a, HEADER as int, k);
            }
        }
        bytes::lemma_field_agrees(a, b, 4, 2);
    }
    lemma_labels_ignore_case(a, b, HEADER as int, 0);
}

/// Decodes the name that the first question asks for.
pub fn question_name(packet: &[u8]) -> (name: Option<String>)
    ensures
        match name {
            Some(name) => asked_name(packet@) == Some(name@),
            None => asked_name(packet@) is None,
        },
{
    match be16(packet, 4) {
        Some(questions) => if questions == 0 {
            None
        } else {
            match decode_name(packet, HEADER) {
                Some((name, _)) => Some(name),
                None => None,
            }
        },
        None => None,
    }
}

} // verus!
