//! The places in a message that hold an IP address which a client may connect
//! to: the data of A and AAAA records and the address hints of HTTPS and SVCB
//! records.

use crate::bytes;
use crate::bytes::be16;
use crate::wire::Record;
use vstd::prelude::*;

verus! {

pub const TYPE_A: u16 = 1;
pub const TYPE_AAAA: u16 = 28;
pub const TYPE_OPT: u16 = 41;
pub const TYPE_SVCB: u16 = 64;
pub const TYPE_HTTPS: u16 = 65;
pub const TYPE_TKEY: u16 = 249;
pub const TYPE_TSIG: u16 = 250;

/// SvcParamKey of a list of IPv4 addresses.
pub const KEY_IPV4HINT: u16 = 4;
/// SvcParamKey of a list of IPv6 addresses.
pub const KEY_IPV6HINT: u16 = 6;

/// An address inside a message, by its place.
#[derive(Clone, Copy, Debug, PartialEq, Eq)]
pub struct Slot {
    /// First byte of the address.
    pub offset: usize,
    /// Whether the address is an IPv6 one.
    pub v6: bool,
}

impl Slot {
    /// How many bytes the address takes.
    pub open spec fn width(self) -> nat {
        if self.v6 {
            16
        } else {
            4
        }
    }

    /// The first byte behind the address.
    pub open spec fn end(self) -> int {
        self.offset + self.width()
    }
}

/// Where the uncompressed target name at `pos` ends, if it ends by `end`. A
/// compression pointer is not allowed there.
pub open spec fn target_end(packet: Seq<u8>, pos: int, end: int) -> Option<int>
    decreases end - pos,
{
    if pos >= end {
        None
    } else if packet[pos] >= 0x40 {
        None
    } else if packet[pos] == 0 {
        Some(pos + 1)
    } else if pos + 1 + packet[pos] > end {
        None
    } else {
        target_end(packet, pos + 1 + packet[pos], end)
    }
}

/// The addresses that one service parameter lists: as many whole ones as its
/// value holds.
pub open spec fn param_slots(key: nat, at: int, len: nat) -> Seq<Slot> {
    if key == KEY_IPV4HINT {
        Seq::new(
            len / 4,
            |i: int| Slot { offset: (at + 4 * i) as usize, v6: false },
        )
    } else if key == KEY_IPV6HINT {
        Seq::new(
            len / 16,
            |i: int| Slot { offset: (at + 16 * i) as usize, v6: true },
        )
    } else {
        Seq::empty()
    }
}

/// The addresses that the service parameters from `pos` to `end` list. A
/// parameter that runs over `end` closes the list.
pub open spec fn params_slots(packet: Seq<u8>, pos: int, end: int) -> Seq<Slot>
    decreases end - pos,
{
    let len = bytes::be_field(packet, pos + 2, 2);
    if pos + 4 > end || pos + 4 + len > end {
        Seq::empty()
    } else {
        param_slots(bytes::be_field(packet, pos, 2), pos + 4, len) + params_slots(
            packet,
            pos + 4 + len,
            end,
        )
    }
}

/// The address hints of an HTTPS or SVCB record: none where its data is
/// malformed up to the parameters.
pub open spec fn hint_slots(packet: Seq<u8>, record: Record) -> Seq<Slot> {
    if record.end() > packet.len() || record.rdlen < 2 {
        Seq::empty()
    } else {
        match target_end(packet, record.rdata + 2, record.end()) {
            None => Seq::empty(),
            Some(pos) => params_slots(packet, pos, record.end()),
        }
    }
}

/// The addresses of one record.
pub open spec fn record_slots(packet: Seq<u8>, record: Record) -> Seq<Slot> {
    if record.kind == TYPE_A && record.rdlen == 4 {
        seq![Slot { offset: record.rdata, v6: false }]
    } else if record.kind == TYPE_AAAA && record.rdlen == 16 {
        seq![Slot { offset: record.rdata, v6: true }]
    } else if record.kind == TYPE_SVCB || record.kind == TYPE_HTTPS {
        hint_slots(packet, record)
    } else {
        Seq::empty()
    }
}

pub proof fn lemma_target_end_bounds(packet: Seq<u8>, pos: int, end: int)
    requires
        target_end(packet, pos, end) is Some,
    ensures
        pos < target_end(packet, pos, end)->0 <= end,
    decreases end - pos,
{
    if packet[pos] != 0 {
        lemma_target_end_bounds(packet, pos + 1 + packet[pos], end);
    }
}

/// Finds the end of the target name at `pos`.
fn skip_target(packet: &[u8], pos: usize, end: usize) -> (target: Option<usize>)
    requires
        pos <= end <= packet@.len(),
    ensures
        match target {
            Some(target) => target_end(packet@, pos as int, end as int) == Some(target as int),
            None => target_end(packet@, pos as int, end as int) is None,
        },
{
    let mut at: usize = pos;
    loop
        invariant
            at <= end <= packet@.len(),
            target_end(packet@, at as int, end as int) == target_end(
                packet@,
                pos as int,
                end as int,
            ),
        decreases end - at,
    {
        if at >= end {
            return None;
        }
        let n: u8 = packet[at];
        if n >= 0x40 {
            return None;
        }
        if n == 0 {
            return Some(at + 1);
        }
        if end - at - 1 < n as usize {
            return None;
        }
        at = at + 1 + n as usize;
    }
}

/// Appends the whole addresses of `width` bytes in the `len` bytes at `at`.
fn push_slots(slots: &mut Vec<Slot>, at: usize, len: usize, v6: bool)
    requires
        at + len <= usize::MAX,
    ensures
        final(slots)@ == old(slots)@ + param_slots(
            if v6 {
                KEY_IPV6HINT as nat
            } else {
                KEY_IPV4HINT as nat
            },
            at as int,
            len as nat,
        ),
{
    let width: usize = if v6 {
        16
    } else {
        4
    };
    let ghost key = if v6 {
        KEY_IPV6HINT as nat
    } else {
        KEY_IPV4HINT as nat
    };
    let ghost all = param_slots(key, at as int, len as nat);
    let count: usize = len / width;
    let mut done: usize = 0;
    assert(all.take(0) == Seq::<Slot>::empty());
    assert(old(slots)@ + Seq::<Slot>::empty() == old(slots)@);
    while done < count
        invariant
            done <= count,
            count == len / width,
            width == (if v6 {
                16int
            } else {
                4int
            }),
            key == (if v6 {
                KEY_IPV6HINT as nat
            } else {
                KEY_IPV4HINT as nat
            }),
            at + len <= usize::MAX,
            all == param_slots(key, at as int, len as nat),
            slots@ == old(slots)@ + all.take(done as int),
        decreases count - done,
    {
        let ghost before = slots@;
        assert(width * done + width <= len) by (nonlinear_arith)
            requires
                done < count,
                count == len / width,
                width > 0,
        ;
        let slot = Slot { offset: at + width * done, v6 };
        assert(all[done as int] == slot);
        slots.push(slot);
        done = done + 1;
        assert(slots@ =~= old(slots)@ + all.take(done as int));
    }
    assert(all.take(count as int) == all);
}

/// Lists the address hints of an HTTPS or SVCB record. Clients connect straight
/// to these, past the A and AAAA records.
pub fn svcb_hints(packet: &[u8], record: &Record) -> (slots: Vec<Slot>)
    ensures
        slots@ == hint_slots(packet@, *record),
{
    let len: usize = packet.len();
    let mut slots: Vec<Slot> = Vec::new();
    if record.rdata > len || len - record.rdata < record.rdlen || record.rdlen < 2 {
        return slots;
    }
    let end: usize = record.rdata + record.rdlen;
    let mut pos: usize = match skip_target(packet, record.rdata + 2, end) {
        Some(pos) => pos,
        None => {
            return slots;
        },
    };
    proof {
        lemma_target_end_bounds(packet@, record.rdata + 2, end as int);
    }
    loop
        invariant
            len == packet@.len(),
            pos <= end <= len,
            hint_slots(packet@, *record) == slots@ + params_slots(
                packet@,
                pos as int,
                end as int,
            ),
        decreases end - pos,
    {
        let ghost before = slots@;
        if end - pos < 4 {
            return slots;
        }
        let (key, vlen) = match (be16(packet, pos), be16(packet, pos + 2)) {
            (Some(key), Some(vlen)) => (key, vlen as usize),
            _ => {
                return slots;
            },
        };
        let start: usize = pos + 4;
        if end - start < vlen {
            return slots;
        }
        if key == KEY_IPV4HINT {
            push_slots(&mut slots, start, vlen, false);
        } else if key == KEY_IPV6HINT {
            push_slots(&mut slots, start, vlen, true);
        }
        pos = start + vlen;
        proof {
            let mine = param_slots(key as nat, start as int, vlen as nat);
            let rest = params_slots(packet@, pos as int, end as int);
            assert(slots@ =~= before + mine);
            assert(before + (mine + rest) == slots@ + rest);
        }
    }
}

/// Whether the slots lie between `low` and `high` in order, without overlap.
pub open spec fn in_order(slots: Seq<Slot>, low: int, high: int) -> bool {
    &&& forall|i: int|
        0 <= i < slots.len() ==> low <= (#[trigger] slots[i]).offset && slots[i].end() <= high
    &&& forall|i: int, j: int|
        0 <= i < j < slots.len() ==> (#[trigger] slots[i]).end() <= (#[trigger] slots[j]).offset
}

proof fn lemma_param_in_order(key: nat, at: int, len: nat)
    requires
        0 <= at,
        at + len <= usize::MAX,
    ensures
        in_order(param_slots(key, at, len), at, at + len),
{
    let slots = param_slots(key, at, len);
    assert forall|i: int| 0 <= i < slots.len() implies at <= (#[trigger] slots[i]).offset
        && slots[i].end() <= at + len by {
    }
}

proof fn lemma_params_in_order(packet: Seq<u8>, pos: int, end: int)
    requires
        0 <= pos <= end <= usize::MAX,
    ensures
        in_order(params_slots(packet, pos, end), pos, end),
    decreases end - pos,
{
    let len = bytes::be_field(packet, pos + 2, 2);
    if pos + 4 <= end && pos + 4 + len <= end {
        lemma_param_in_order(bytes::be_field(packet, pos, 2), pos + 4, len);
        lemma_params_in_order(packet, pos + 4 + len, end);
    }
}

pub proof fn lemma_hints_in_order(packet: Seq<u8>, record: Record)
    requires
        packet.len() <= usize::MAX,
    ensures
        in_order(hint_slots(packet, record), record.rdata as int, record.end()),
        record.end() > packet.len() ==> hint_slots(packet, record).len() == 0,
{
    if record.end() <= packet.len() && record.rdlen >= 2 {
        let target = target_end(packet, record.rdata + 2, record.end());
        if target is Some {
            lemma_target_end_bounds(packet, record.rdata + 2, record.end());
            lemma_params_in_order(packet, target->0, record.end());
        }
    }
}

/// The addresses of a record lie inside its data, in order, without overlap.
pub proof fn lemma_slots_in_order(packet: Seq<u8>, record: Record)
    requires
        packet.len() <= usize::MAX,
        record.end() <= packet.len(),
    ensures
        in_order(record_slots(packet, record), record.rdata as int, record.end()),
{
    lemma_hints_in_order(packet, record);
}

/// Whether byte `k` belongs to one of the slots.
pub open spec fn covered(slots: Seq<Slot>, k: int) -> bool {
    exists|i: int| 0 <= i < slots.len() && (#[trigger] slots[i]).offset <= k < slots[i].end()
}

proof fn lemma_target_end_stable(before: Seq<u8>, after: Seq<u8>, pos: int, end: int)
    requires
        0 <= pos,
        end <= before.len() == after.len(),
        forall|k: int|
            pos <= k < (match target_end(before, pos, end) {
                Some(target) => target,
                None => end,
            }) ==> #[trigger] before[k] == after[k],
    ensures
        target_end(after, pos, end) == target_end(before, pos, end),
    decreases end - pos,
{
    if pos < end {
        if target_end(before, pos, end) is Some {
            lemma_target_end_bounds(before, pos, end);
        }
        assert(before[pos] == after[pos]);
        if 0 < before[pos] < 0x40 && pos + 1 + before[pos] <= end {
            lemma_target_end_stable(before, after, pos + 1 + before[pos], end);
        }
    }
}

proof fn lemma_params_stable(before: Seq<u8>, after: Seq<u8>, pos: int, end: int)
    requires
        0 <= pos <= end <= before.len() == after.len(),
        before.len() <= usize::MAX,
        forall|k: int|
            pos <= k < end && !covered(params_slots(before, pos, end), k) ==> #[trigger] before[k]
                == after[k],
    ensures
        params_slots(after, pos, end) == params_slots(before, pos, end),
    decreases end - pos,
{
    let all = params_slots(before, pos, end);
    let len = bytes::be_field(before, pos + 2, 2);
    if pos + 4 <= end {
        lemma_params_in_order(before, pos, end);
        let next = pos + 4 + len;
        let mine = param_slots(bytes::be_field(before, pos, 2), pos + 4, len);
        let rest = params_slots(before, next, end);
        if next <= end {
            lemma_param_in_order(bytes::be_field(before, pos, 2), pos + 4, len);
            lemma_params_in_order(before, next, end);
        }
        assert forall|k: int| pos <= k < pos + 4 implies #[trigger] before[k] == after[k] by {
            if next <= end {
                assert forall|i: int| 0 <= i < all.len() implies pos + 4 <= (
                #[trigger] all[i]).offset by {
                    if i < mine.len() {
                        assert(all[i] == mine[i]);
                    } else {
                        assert(all[i] == rest[i - mine.len()]);
                    }
                }
            }
            assert(!covered(all, k));
        }
        assert(before.subrange(pos, pos + 2) =~= after.subrange(pos, pos + 2));
        assert(before.subrange(pos + 2, pos + 4) =~= after.subrange(pos + 2, pos + 4));
        if next <= end {
            assert forall|k: int| next <= k < end && !covered(rest, k) implies #[trigger] before[k]
                == after[k] by {
                if covered(all, k) {
                    let i = choose|i: int|
                        0 <= i < all.len() && (#[trigger] all[i]).offset <= k < all[i].end();
                    if i < mine.len() {
                        assert(all[i] == mine[i]);
                    } else {
                        assert(all[i] == rest[i - mine.len()]);
                    }
                }
            }
            lemma_params_stable(before, after, next, end);
        }
    }
}

/// Two messages that agree on the data of a record, but for the addresses in it,
/// have its addresses at the same places.
pub proof fn lemma_slots_stable(before: Seq<u8>, after: Seq<u8>, record: Record)
    requires
        record.end() <= before.len() == after.len(),
        before.len() <= usize::MAX,
        forall|k: int|
            record.rdata <= k < record.end() && !covered(record_slots(before, record), k)
                ==> #[trigger] before[k] == after[k],
    ensures
        record_slots(after, record) == record_slots(before, record),
{
    if (record.kind == TYPE_SVCB || record.kind == TYPE_HTTPS) && record.rdlen >= 2 {
        let slots = record_slots(before, record);
        let pos = record.rdata + 2;
        let target = target_end(before, pos, record.end());
        let stop = match target {
            Some(target) => target,
            None => record.end(),
        };
        if target is Some {
            lemma_target_end_bounds(before, pos, record.end());
            lemma_params_in_order(before, stop, record.end());
        }
        assert forall|k: int| pos <= k < stop implies #[trigger] before[k] == after[k] by {
            assert(!covered(slots, k));
        }
        lemma_target_end_stable(before, after, pos, record.end());
        if target is Some {
            lemma_params_stable(before, after, stop, record.end());
        }
    }
}

} // verus!
