//! How a message is rewritten: which addresses change, what becomes of the
//! TTLs, and what the message looks like afterwards.

use crate::bytes;
use crate::bytes::{overwrite_at, read_be, write_be};
use crate::evasion::Data;
use crate::ranges;
use crate::ranges::containing;
use crate::redirects::TestRedirect;
use crate::slots;
use crate::slots::{
    svcb_hints, Slot, TYPE_A, TYPE_AAAA, TYPE_HTTPS, TYPE_OPT, TYPE_SVCB, TYPE_TKEY, TYPE_TSIG,
};
use crate::wire;
use crate::wire::Record;
use vstd::prelude::*;

verus! {

/// The most seconds that a client may keep an answer which holds an address of
/// the rewritable ranges.
pub const CLOUDFLARE_MAX_TTL: u32 = 30;

/// Seconds that a rewritten answer may be kept, unless set otherwise. It bounds
/// how long a client goes on with an address that has become blocked since.
pub const DEFAULT_REWRITE_TTL: u32 = 30;

/// New bytes for a place in the message.
pub type Change = (usize, Vec<u8>);

/// The places and new bytes of a list of changes.
pub open spec fn change_views(changes: Seq<Change>) -> Seq<(int, Seq<u8>)> {
    Seq::new(changes.len(), |i: int| (changes[i].0 as int, changes[i].1@))
}

/// The address in a slot, as a number.
pub open spec fn slot_value(packet: Seq<u8>, slot: Slot) -> nat {
    bytes::be_field(packet, slot.offset as int, slot.width())
}

/// What an address ought to be: what the redirect pins for its family, else
/// the free neighbour of a blocked address. `None` where it may stay.
pub open spec fn wanted(
    data: Data,
    redirect: Option<TestRedirect>,
    v6: bool,
    value: nat,
) -> Option<nat> {
    if v6 {
        match redirect {
            Some(TestRedirect { v6: Some(ip), .. }) => Some(ip as nat),
            _ => match data.replacement_v6(value as u128) {
                Some(ip) => Some(ip as nat),
                None => None,
            },
        }
    } else {
        match redirect {
            Some(TestRedirect { v4: Some(ip), .. }) => Some(ip as nat),
            _ => match data.replacement_v4(value as u32) {
                Some(ip) => Some(ip as nat),
                None => None,
            },
        }
    }
}

/// Whether an address lies in the rewritable ranges.
pub open spec fn rewritable(data: Data, v6: bool, value: nat) -> bool {
    if v6 {
        ranges::range_of(data.cf_v6@, value as u128) is Some
    } else {
        ranges::range_of(data.cf_v4@, value as u32) is Some
    }
}

/// The address that a slot gets, where that is another one than it holds.
pub open spec fn new_value(
    packet: Seq<u8>,
    slot: Slot,
    data: Data,
    redirect: Option<TestRedirect>,
) -> Option<nat> {
    match wanted(data, redirect, slot.v6, slot_value(packet, slot)) {
        Some(value) => if value != slot_value(packet, slot) {
            Some(value)
        } else {
            None
        },
        None => None,
    }
}

/// The changes to a list of slots, in their order.
pub open spec fn slot_changes(
    packet: Seq<u8>,
    slots: Seq<Slot>,
    data: Data,
    redirect: Option<TestRedirect>,
) -> Seq<(int, Seq<u8>)>
    decreases slots.len(),
{
    if slots.len() == 0 {
        Seq::empty()
    } else {
        let before = slot_changes(packet, slots.drop_last(), data, redirect);
        let slot = slots.last();
        match new_value(packet, slot, data, redirect) {
            Some(value) => before.push((slot.offset as int, bytes::be_bytes(value, slot.width()))),
            None => before,
        }
    }
}

/// Whether one of the slots holds an address of the rewritable ranges.
pub open spec fn any_rewritable(packet: Seq<u8>, slots: Seq<Slot>, data: Data) -> bool {
    exists|i: int|
        0 <= i < slots.len() && rewritable(
            data,
            (#[trigger] slots[i]).v6,
            slot_value(packet, slots[i]),
        )
}

/// The redirect as it applies to a record: only in the answer section.
pub open spec fn redirect_for(redirect: Option<TestRedirect>, record: Record) -> Option<
    TestRedirect,
> {
    if record.answer {
        redirect
    } else {
        None
    }
}

/// The changes to the addresses of all the records, in their order.
pub open spec fn message_changes(
    packet: Seq<u8>,
    records: Seq<Record>,
    data: Data,
    redirect: Option<TestRedirect>,
) -> Seq<(int, Seq<u8>)>
    decreases records.len(),
{
    if records.len() == 0 {
        Seq::empty()
    } else {
        message_changes(packet, records.drop_last(), data, redirect) + slot_changes(
            packet,
            slots::record_slots(packet, records.last()),
            data,
            redirect_for(redirect, records.last()),
        )
    }
}

/// Whether the message holds an address of the rewritable ranges.
pub open spec fn has_rewritable(packet: Seq<u8>, records: Seq<Record>, data: Data) -> bool {
    exists|i: int|
        0 <= i < records.len() && any_rewritable(
            packet,
            slots::record_slots(packet, #[trigger] records[i]),
            data,
        )
}

/// Whether the TTL field of a record holds something else than a TTL.
pub open spec fn is_pseudo(record: Record) -> bool {
    record.kind == TYPE_OPT || record.kind == TYPE_TKEY || record.kind == TYPE_TSIG
}

/// The TTL in the message at the TTL field of `record`.
pub open spec fn ttl_value(packet: Seq<u8>, record: Record) -> nat {
    bytes::be_field(packet, record.ttl as int, 4)
}

/// The lesser of the two.
pub open spec fn lesser(a: nat, b: nat) -> nat {
    if a < b {
        a
    } else {
        b
    }
}

/// The message with no TTL above `limit`.
pub open spec fn capped(packet: Seq<u8>, records: Seq<Record>, limit: nat) -> Seq<u8>
    decreases records.len(),
{
    if records.len() == 0 {
        packet
    } else {
        let before = capped(packet, records.drop_last(), limit);
        let record = records.last();
        if is_pseudo(record) {
            before
        } else {
            bytes::overwrite(
                before,
                record.ttl as int,
                bytes::be_bytes(lesser(ttl_value(before, record), limit), 4),
            )
        }
    }
}

/// The message with the changes made.
pub open spec fn patched(packet: Seq<u8>, changes: Seq<(int, Seq<u8>)>) -> Seq<u8>
    decreases changes.len(),
{
    if changes.len() == 0 {
        packet
    } else {
        bytes::overwrite(
            patched(packet, changes.drop_last()),
            changes.last().0,
            changes.last().1,
        )
    }
}

/// A flag byte without the bit that claims validated data (0x20).
pub open spec fn without_ad(flags: u8) -> u8 {
    if flags / 0x20 % 2 == 1 {
        (flags - 0x20) as u8
    } else {
        flags
    }
}

/// The greatest TTL that a rewritten message may have.
pub open spec fn ttl_limit(rewritable: bool, changed: bool, rewrite_ttl: nat) -> nat {
    if rewritable && !changed {
        CLOUDFLARE_MAX_TTL as nat
    } else if rewritable {
        lesser(CLOUDFLARE_MAX_TTL as nat, rewrite_ttl)
    } else {
        rewrite_ttl
    }
}

/// The message after rewriting. One that holds neither an address of the
/// rewritable ranges nor one to change stays as it is. Else its TTLs are capped;
/// and where addresses change, it no longer claims to be validated.
pub open spec fn rewritten(
    packet: Seq<u8>,
    records: Seq<Record>,
    data: Data,
    redirect: Option<TestRedirect>,
    rewrite_ttl: u32,
) -> Seq<u8> {
    let changes = message_changes(packet, records, data, redirect);
    let rewritable = has_rewritable(packet, records, data);
    let limit = ttl_limit(rewritable, changes.len() > 0, rewrite_ttl as nat);
    if changes.len() > 0 {
        let out = patched(capped(packet, records, limit), changes);
        out.update(3, without_ad(out[3]))
    } else if rewritable {
        capped(packet, records, limit)
    } else {
        packet
    }
}

/// Appends the changes to a list of slots; sets `has_cloudflare` where one of
/// them holds an address of the rewritable ranges.
fn collect_changes(
    packet: &[u8],
    slots: &Vec<Slot>,
    data: &Data,
    redirect: Option<TestRedirect>,
    has_cloudflare: &mut bool,
    changes: &mut Vec<Change>,
)
    requires
        data.wf(),
        forall|i: int| 0 <= i < slots@.len() ==> (#[trigger] slots@[i]).end() <= packet@.len(),
    ensures
        *final(has_cloudflare) == (*old(has_cloudflare) || any_rewritable(packet@, slots@, *data)),
        change_views(final(changes)@) == change_views(old(changes)@) + slot_changes(
            packet@,
            slots@,
            *data,
            redirect,
        ),
{
    let mut at: usize = 0;
    assert(slots@.take(0) == Seq::<Slot>::empty());
    assert(change_views(changes@) =~= change_views(old(changes)@) + slot_changes(
        packet@,
        slots@.take(0),
        *data,
        redirect,
    ));
    while at < slots.len()
        invariant
            at <= slots@.len(),
            data.wf(),
            forall|i: int| 0 <= i < slots@.len() ==> (#[trigger] slots@[i]).end() <= packet@.len(),
            *has_cloudflare == (*old(has_cloudflare) || any_rewritable(
                packet@,
                slots@.take(at as int),
                *data,
            )),
            change_views(changes@) == change_views(old(changes)@) + slot_changes(
                packet@,
                slots@.take(at as int),
                *data,
                redirect,
            ),
        decreases slots@.len() - at,
    {
        let slot: Slot = slots[at];
        let ghost now = slots@.take(at + 1);
        let ghost before = changes@;
        proof {
            assert(now.drop_last() == slots@.take(at as int));
            assert(now.last() == slot);
            bytes::lemma_pow256_values();
        }
        let found: bool;
        if slot.v6 {
            let ip: u128 = read_be(packet, slot.offset, 16);
            found = containing(data.cf_v6.as_slice(), ip).is_some();
            let new: Option<u128> = match redirect {
                Some(TestRedirect { v6: Some(pinned), .. }) => Some(pinned),
                _ => data.evasive_v6(ip),
            };
            if let Some(new_ip) = new {
                if new_ip != ip {
                    changes.push((slot.offset, write_be(new_ip, 16)));
                }
            }
        } else {
            let ip: u32 = read_be(packet, slot.offset, 4) as u32;
            found = containing(data.cf_v4.as_slice(), ip).is_some();
            let new: Option<u32> = match redirect {
                Some(TestRedirect { v4: Some(pinned), .. }) => Some(pinned),
                _ => data.evasive_v4(ip),
            };
            if let Some(new_ip) = new {
                if new_ip != ip {
                    changes.push((slot.offset, write_be(new_ip as u128, 4)));
                }
            }
        }
        if found {
            *has_cloudflare = true;
        }
        proof {
            assert(found == rewritable(*data, slot.v6, slot_value(packet@, slot)));
            assert(any_rewritable(packet@, now, *data) == (found || any_rewritable(
                packet@,
                slots@.take(at as int),
                *data,
            ))) by {
                if found {
                    assert(rewritable(*data, now[at as int].v6, slot_value(packet@, now[at as int])));
                }
                if any_rewritable(packet@, slots@.take(at as int), *data) {
                    let i = choose|i: int|
                        0 <= i < at && rewritable(
                            *data,
                            (#[trigger] slots@.take(at as int)[i]).v6,
                            slot_value(packet@, slots@.take(at as int)[i]),
                        );
                    assert(rewritable(*data, now[i].v6, slot_value(packet@, now[i])));
                }
                if any_rewritable(packet@, now, *data) {
                    let i = choose|i: int|
                        0 <= i < now.len() && rewritable(
                            *data,
                            (#[trigger] now[i]).v6,
                            slot_value(packet@, now[i]),
                        );
                    if i < at {
                        assert(slots@.take(at as int)[i] == now[i]);
                    }
                }
            }
            match new_value(packet@, slot, *data, redirect) {
                Some(value) => {
                    let change = (slot.offset as int, bytes::be_bytes(value, slot.width()));
                    assert(change_views(changes@) =~= change_views(before).push(change));
                },
                None => {
                    assert(changes@ == before);
                },
            }
            assert(change_views(changes@) =~= change_views(old(changes)@) + slot_changes(
                packet@,
                now,
                *data,
                redirect,
            ));
        }
        at = at + 1;
    }
    assert(slots@.take(slots@.len() as int) == slots@);
}

/// The changes to the address hints of an HTTPS or SVCB record; sets
/// `has_cloudflare` where one of them lies in the rewritable ranges. Hints keep
/// their width, so that nothing in the message moves.
pub fn svcb_hint_changes(
    packet: &[u8],
    rr: &Record,
    data: &Data,
    test_redirect: Option<TestRedirect>,
    has_cloudflare: &mut bool,
) -> (changes: Vec<Change>)
    requires
        data.wf(),
    ensures
        *final(has_cloudflare) == (*old(has_cloudflare) || any_rewritable(
            packet@,
            slots::hint_slots(packet@, *rr),
            *data,
        )),
        change_views(changes@) == slot_changes(
            packet@,
            slots::hint_slots(packet@, *rr),
            *data,
            test_redirect,
        ),
{
    let len: usize = packet.len();
    let slots: Vec<Slot> = svcb_hints(packet, rr);
    proof {
        slots::lemma_hints_in_order(packet@, *rr);
    }
    let mut changes: Vec<Change> = Vec::new();
    collect_changes(packet, &slots, data, test_redirect, has_cloudflare, &mut changes);
    assert(change_views(Seq::<Change>::empty()) =~= Seq::<(int, Seq<u8>)>::empty());
    assert(change_views(changes@) =~= slot_changes(packet@, slots@, *data, test_redirect));
    changes
}

/// The changes to the addresses of one record; sets `has_cloudflare` where one
/// of them lies in the rewritable ranges.
fn record_changes(
    packet: &[u8],
    rr: &Record,
    data: &Data,
    redirect: Option<TestRedirect>,
    has_cloudflare: &mut bool,
) -> (changes: Vec<Change>)
    requires
        data.wf(),
        rr.end() <= packet@.len(),
    ensures
        *final(has_cloudflare) == (*old(has_cloudflare) || any_rewritable(
            packet@,
            slots::record_slots(packet@, *rr),
            *data,
        )),
        change_views(changes@) == slot_changes(
            packet@,
            slots::record_slots(packet@, *rr),
            *data,
            redirect,
        ),
{
    let mut changes: Vec<Change> = Vec::new();
    let mut slots: Vec<Slot> = Vec::new();
    if rr.kind == TYPE_A && rr.rdlen == 4 {
        slots.push(Slot { offset: rr.rdata, v6: false });
    } else if rr.kind == TYPE_AAAA && rr.rdlen == 16 {
        slots.push(Slot { offset: rr.rdata, v6: true });
    } else if rr.kind == TYPE_SVCB || rr.kind == TYPE_HTTPS {
        return svcb_hint_changes(packet, rr, data, redirect, has_cloudflare);
    }
    assert(slots@ =~= slots::record_slots(packet@, *rr));
    collect_changes(packet, &slots, data, redirect, has_cloudflare, &mut changes);
    assert(change_views(Seq::<Change>::empty()) =~= Seq::<(int, Seq<u8>)>::empty());
    assert(change_views(changes@) =~= slot_changes(packet@, slots@, *data, redirect));
    changes
}

/// Whether the changes lie between `low` and `high`.
pub open spec fn changes_within(changes: Seq<(int, Seq<u8>)>, low: int, high: int) -> bool {
    forall|i: int|
        0 <= i < changes.len() ==> low <= (#[trigger] changes[i]).0 && changes[i].0
            + changes[i].1.len() <= high
}

proof fn lemma_slot_changes_within(
    packet: Seq<u8>,
    slots: Seq<Slot>,
    data: Data,
    redirect: Option<TestRedirect>,
    low: int,
    high: int,
)
    requires
        slots::in_order(slots, low, high),
    ensures
        changes_within(slot_changes(packet, slots, data, redirect), low, high),
    decreases slots.len(),
{
    if slots.len() > 0 {
        let init = slots.drop_last();
        assert(slots::in_order(init, low, high)) by {
            assert forall|i: int| 0 <= i < init.len() implies low <= (#[trigger] init[i]).offset
                && init[i].end() <= high by {
                assert(init[i] == slots[i]);
            }
            assert forall|i: int, j: int| 0 <= i < j < init.len() implies (
            #[trigger] init[i]).end() <= (#[trigger] init[j]).offset by {
                assert(init[i] == slots[i] && init[j] == slots[j]);
            }
        }
        lemma_slot_changes_within(packet, init, data, redirect, low, high);
        let slot = slots[slots.len() - 1];
        let value = new_value(packet, slot, data, redirect);
        if value is Some {
            bytes::lemma_be_bytes_len(value->0, slot.width());
        }
    }
}

pub proof fn lemma_laid_out_init(records: Seq<Record>, low: int, high: int)
    requires
        wire::laid_out(records, low, high),
        records.len() > 0,
    ensures
        wire::laid_out(records.drop_last(), low, high),
{
    let init = records.drop_last();
    assert forall|i: int| 0 <= i < init.len() implies {
        &&& low <= (#[trigger] init[i]).start
        &&& init[i].start + 5 <= init[i].ttl
        &&& init[i].ttl + 6 == init[i].rdata
        &&& init[i].end() <= high
    } by {
        assert(init[i] == records[i]);
    }
    assert forall|i: int, j: int| 0 <= i < j < init.len() implies (#[trigger] init[i]).end() <= (
    #[trigger] init[j]).start by {
        assert(init[i] == records[i] && init[j] == records[j]);
    }
}

proof fn lemma_message_changes_within(
    packet: Seq<u8>,
    records: Seq<Record>,
    data: Data,
    redirect: Option<TestRedirect>,
)
    requires
        packet.len() <= usize::MAX,
        wire::laid_out(records, wire::HEADER as int, packet.len() as int),
    ensures
        changes_within(
            message_changes(packet, records, data, redirect),
            wire::HEADER as int,
            packet.len() as int,
        ),
    decreases records.len(),
{
    if records.len() > 0 {
        lemma_laid_out_init(records, wire::HEADER as int, packet.len() as int);
        lemma_message_changes_within(packet, records.drop_last(), data, redirect);
        let record = records[records.len() - 1];
        let slots = slots::record_slots(packet, record);
        slots::lemma_slots_in_order(packet, record);
        lemma_slot_changes_within(
            packet,
            slots,
            data,
            redirect_for(redirect, record),
            record.rdata as int,
            record.end(),
        );
    }
}

proof fn lemma_capped_len(packet: Seq<u8>, records: Seq<Record>, limit: nat)
    ensures
        capped(packet, records, limit).len() == packet.len(),
    decreases records.len(),
{
    if records.len() > 0 {
        lemma_capped_len(packet, records.drop_last(), limit);
    }
}

proof fn lemma_patched_len(packet: Seq<u8>, changes: Seq<(int, Seq<u8>)>)
    ensures
        patched(packet, changes).len() == packet.len(),
    decreases changes.len(),
{
    if changes.len() > 0 {
        lemma_patched_len(packet, changes.drop_last());
    }
}

/// Caps the TTLs. Short ones stay, and so do the fields of pseudo-records.
fn cap_ttls(packet: &mut Vec<u8>, records: &Vec<Record>, limit: u32)
    requires
        wire::laid_out(records@, wire::HEADER as int, old(packet)@.len() as int),
    ensures
        final(packet)@ == capped(old(packet)@, records@, limit as nat),
{
    let mut at: usize = 0;
    assert(records@.take(0) == Seq::<Record>::empty());
    while at < records.len()
        invariant
            at <= records@.len(),
            wire::laid_out(records@, wire::HEADER as int, old(packet)@.len() as int),
            packet@ == capped(old(packet)@, records@.take(at as int), limit as nat),
        decreases records@.len() - at,
    {
        let record: Record = records[at];
        proof {
            assert(records@.take(at + 1).drop_last() == records@.take(at as int));
            lemma_capped_len(old(packet)@, records@.take(at as int), limit as nat);
            bytes::lemma_pow256_values();
        }
        if record.kind != TYPE_OPT && record.kind != TYPE_TKEY && record.kind != TYPE_TSIG {
            let ttl: u32 = read_be(packet.as_slice(), record.ttl, 4) as u32;
            let ttl: u32 = if ttl < limit {
                ttl
            } else {
                limit
            };
            overwrite_at(packet, record.ttl, &write_be(ttl as u128, 4));
        }
        at = at + 1;
    }
    assert(records@.take(records@.len() as int) == records@);
}

/// Makes the changes.
fn apply_changes(packet: &mut Vec<u8>, changes: &Vec<Change>)
    requires
        changes_within(change_views(changes@), 0, old(packet)@.len() as int),
    ensures
        final(packet)@ == patched(old(packet)@, change_views(changes@)),
{
    let ghost views = change_views(changes@);
    let mut at: usize = 0;
    assert(views.take(0) == Seq::<(int, Seq<u8>)>::empty());
    while at < changes.len()
        invariant
            at <= changes@.len(),
            views == change_views(changes@),
            changes_within(views, 0, old(packet)@.len() as int),
            packet@ == patched(old(packet)@, views.take(at as int)),
        decreases changes@.len() - at,
    {
        proof {
            assert(views.take(at + 1).drop_last() == views.take(at as int));
            assert(views[at as int] == (changes@[at as int].0 as int, changes@[at as int].1@));
            lemma_patched_len(old(packet)@, views.take(at as int));
        }
        overwrite_at(packet, changes[at].0, &changes[at].1);
        at = at + 1;
    }
    assert(views.take(views.len() as int) == views);
}

/// The flag byte without the claim of validated data.
pub fn clear_ad(flags: u8) -> (out: u8)
    ensures
        out == without_ad(flags),
{
    if flags / 0x20 % 2 == 1 {
        flags - 0x20
    } else {
        flags
    }
}

/// Rewrites a message whose records are known, in place; gives the number of
/// addresses that changed.
pub fn rewrite_records(
    packet: &mut Vec<u8>,
    records: &Vec<Record>,
    data: &Data,
    redirect: Option<TestRedirect>,
    rewrite_ttl: u32,
) -> (count: usize)
    requires
        data.wf(),
        wire::records_of(old(packet)@) == Some(records@),
    ensures
        final(packet)@ == rewritten(old(packet)@, records@, *data, redirect, rewrite_ttl),
        count == message_changes(old(packet)@, records@, *data, redirect).len(),
{
    let len: usize = packet.len();
    proof {
        wire::lemma_records_laid_out(packet@);
        lemma_message_changes_within(packet@, records@, *data, redirect);
    }
    let mut changes: Vec<Change> = Vec::new();
    let mut has_cloudflare: bool = false;
    let mut at: usize = 0;
    assert(records@.take(0) == Seq::<Record>::empty());
    assert(change_views(changes@) =~= Seq::<(int, Seq<u8>)>::empty());
    while at < records.len()
        invariant
            at <= records@.len(),
            len == packet@.len(),
            packet@ == old(packet)@,
            data.wf(),
            wire::laid_out(records@, wire::HEADER as int, packet@.len() as int),
            change_views(changes@) == message_changes(
                packet@,
                records@.take(at as int),
                *data,
                redirect,
            ),
            has_cloudflare == has_rewritable(packet@, records@.take(at as int), *data),
        decreases records@.len() - at,
    {
        let record: Record = records[at];
        let ghost done = records@.take(at as int);
        let ghost now = records@.take(at + 1);
        proof {
            assert(now.drop_last() == done);
            assert(now.last() == record);
        }
        let own: Option<TestRedirect> = if record.answer {
            redirect
        } else {
            None
        };
        let ghost before = changes@;
        let mut more: Vec<Change> = record_changes(
            packet.as_slice(),
            &record,
            data,
            own,
            &mut has_cloudflare,
        );
        let ghost added = more@;
        changes.append(&mut more);
        proof {
            assert(change_views(changes@) =~= change_views(before) + change_views(added));
            let mine = any_rewritable(packet@, slots::record_slots(packet@, record), *data);
            assert(has_rewritable(packet@, now, *data) == (mine || has_rewritable(
                packet@,
                done,
                *data,
            ))) by {
                if mine {
                    assert(now[at as int] == record);
                }
                if has_rewritable(packet@, done, *data) {
                    let i = choose|i: int|
                        0 <= i < done.len() && any_rewritable(
                            packet@,
                            slots::record_slots(packet@, #[trigger] done[i]),
                            *data,
                        );
                    assert(now[i] == done[i]);
                }
                if has_rewritable(packet@, now, *data) {
                    let i = choose|i: int|
                        0 <= i < now.len() && any_rewritable(
                            packet@,
                            slots::record_slots(packet@, #[trigger] now[i]),
                            *data,
                        );
                    if i < at {
                        assert(done[i] == now[i]);
                    }
                }
            }
        }
        at = at + 1;
    }
    assert(records@.take(records@.len() as int) == records@);
    let count: usize = changes.len();
    assert(change_views(changes@).len() == count);
    if has_cloudflare || count > 0 {
        let limit: u32 = if has_cloudflare && (count == 0 || CLOUDFLARE_MAX_TTL <= rewrite_ttl) {
            CLOUDFLARE_MAX_TTL
        } else {
            rewrite_ttl
        };
        cap_ttls(packet, records, limit);
        proof {
            lemma_capped_len(old(packet)@, records@, limit as nat);
        }
    }
    if count == 0 {
        return 0;
    }
    apply_changes(packet, &changes);
    proof {
        lemma_patched_len(
            capped(
                old(packet)@,
                records@,
                ttl_limit(has_cloudflare, true, rewrite_ttl as nat),
            ),
            change_views(changes@),
        );
    }
    let flags: u8 = packet[3];
    packet.set(3, clear_ad(flags));
    count
}

} // verus!
