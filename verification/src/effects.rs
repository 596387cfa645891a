//! What rewriting does to a message, and what it leaves alone.

use crate::bytes;
use crate::evasion;
use crate::evasion::Data;
use crate::ranges;
use crate::redirects::TestRedirect;
use crate::rewrite;
use crate::slots;
use crate::slots::Slot;
use crate::wire;
use crate::wire::Record;
use vstd::prelude::*;

verus! {

/// Whether byte `k` belongs to a TTL.
pub open spec fn ttl_byte(records: Seq<Record>, k: int) -> bool {
    exists|i: int|
        0 <= i < records.len() && !rewrite::is_pseudo(#[trigger] records[i]) && records[i].ttl <= k
            < records[i].ttl + 4
}

/// Whether byte `k` belongs to an address that a client may connect to.
pub open spec fn slot_byte(packet: Seq<u8>, records: Seq<Record>, k: int) -> bool {
    exists|i: int|
        0 <= i < records.len() && slots::covered(
            slots::record_slots(packet, #[trigger] records[i]),
            k,
        )
}

/// The address that a slot holds after rewriting.
pub open spec fn settled(
    packet: Seq<u8>,
    slot: Slot,
    data: Data,
    redirect: Option<TestRedirect>,
) -> nat {
    match rewrite::wanted(data, redirect, slot.v6, rewrite::slot_value(packet, slot)) {
        Some(value) => value,
        None => rewrite::slot_value(packet, slot),
    }
}

/// Capping touches TTLs alone, and lowers those above the limit to it.
proof fn lemma_capped(packet: Seq<u8>, records: Seq<Record>, limit: nat)
    requires
        wire::laid_out(records, wire::HEADER as int, packet.len() as int),
    ensures
        rewrite::capped(packet, records, limit).len() == packet.len(),
        forall|k: int|
            0 <= k < packet.len() && !ttl_byte(records, k) ==> #[trigger] rewrite::capped(
                packet,
                records,
                limit,
            )[k] == packet[k],
        forall|i: int|
            0 <= i < records.len() && !rewrite::is_pseudo(#[trigger] records[i])
                ==> rewrite::ttl_value(rewrite::capped(packet, records, limit), records[i])
                == rewrite::lesser(rewrite::ttl_value(packet, records[i]), limit),
    decreases records.len(),
{
    if records.len() > 0 {
        let init = records.drop_last();
        let last = records[records.len() - 1];
        let before = rewrite::capped(packet, init, limit);
        let after = rewrite::capped(packet, records, limit);
        rewrite::lemma_laid_out_init(records, wire::HEADER as int, packet.len() as int);
        lemma_capped(packet, init, limit);
        assert forall|k: int| last.ttl <= k < last.ttl + 4 implies #[trigger] before[k]
            == packet[k] by {
            if ttl_byte(init, k) {
                let i = choose|i: int|
                    0 <= i < init.len() && !rewrite::is_pseudo(#[trigger] init[i]) && init[i].ttl
                        <= k < init[i].ttl + 4;
                assert(init[i] == records[i]);
                assert(records[i].end() <= records[records.len() - 1].start);
            }
        }
        bytes::lemma_field_agrees(before, packet, last.ttl as int, 4);
        let value = rewrite::lesser(rewrite::ttl_value(before, last), limit);
        bytes::lemma_pow256_values();
        bytes::lemma_be_value_bound(before.subrange(last.ttl as int, last.ttl + 4));
        bytes::lemma_be_bytes_len(value, 4);
        if !rewrite::is_pseudo(last) {
            bytes::lemma_field_overwritten(before, last.ttl as int, value, 4);
        }
        assert forall|k: int| 0 <= k < packet.len() && !ttl_byte(records, k) implies #[trigger]
            after[k] == packet[k] by {
            if ttl_byte(init, k) {
                let i = choose|i: int|
                    0 <= i < init.len() && !rewrite::is_pseudo(#[trigger] init[i]) && init[i].ttl
                        <= k < init[i].ttl + 4;
                assert(init[i] == records[i]);
            }
            if !rewrite::is_pseudo(last) && last.ttl <= k < last.ttl + 4 {
                assert(records[records.len() - 1] == last);
            }
        }
        assert forall|i: int|
            0 <= i < records.len() && !rewrite::is_pseudo(#[trigger] records[i]) implies rewrite::ttl_value(
            after,
            records[i],
        ) == rewrite::lesser(rewrite::ttl_value(packet, records[i]), limit) by {
            if i < init.len() {
                assert(init[i] == records[i]);
                assert(records[i].end() <= records[records.len() - 1].start);
                bytes::lemma_field_agrees(after, before, records[i].ttl as int, 4);
            }
        }
    }
}

proof fn lemma_in_order_init(slots: Seq<Slot>, low: int, high: int)
    requires
        slots::in_order(slots, low, high),
        slots.len() > 0,
    ensures
        slots::in_order(slots.drop_last(), low, high),
{
    let init = slots.drop_last();
    assert forall|i: int| 0 <= i < init.len() implies low <= (#[trigger] init[i]).offset
        && init[i].end() <= high by {
        assert(init[i] == slots[i]);
    }
    assert forall|i: int, j: int| 0 <= i < j < init.len() implies (#[trigger] init[i]).end() <= (
    #[trigger] init[j]).offset by {
        assert(init[i] == slots[i] && init[j] == slots[j]);
    }
}

/// Making the changes to a list of slots touches these alone, and leaves in each
/// the address that it ought to hold.
proof fn lemma_slots_patched(
    packet: Seq<u8>,
    base: Seq<u8>,
    slots: Seq<Slot>,
    data: Data,
    redirect: Option<TestRedirect>,
)
    requires
        slots::in_order(slots, 0, base.len() as int),
        forall|i: int|
            0 <= i < slots.len() ==> rewrite::slot_value(base, #[trigger] slots[i])
                == rewrite::slot_value(packet, slots[i]),
    ensures
        ({
            let after = rewrite::patched(
                base,
                rewrite::slot_changes(packet, slots, data, redirect),
            );
            &&& after.len() == base.len()
            &&& forall|k: int|
                0 <= k < base.len() && !slots::covered(slots, k) ==> #[trigger] after[k] == base[k]
            &&& forall|i: int|
                0 <= i < slots.len() ==> rewrite::slot_value(after, #[trigger] slots[i])
                    == settled(packet, slots[i], data, redirect)
        }),
    decreases slots.len(),
{
    if slots.len() > 0 {
        let init = slots.drop_last();
        let slot = slots[slots.len() - 1];
        let changes = rewrite::slot_changes(packet, slots, data, redirect);
        let earlier = rewrite::slot_changes(packet, init, data, redirect);
        let before = rewrite::patched(base, earlier);
        let after = rewrite::patched(base, changes);
        lemma_in_order_init(slots, 0, base.len() as int);
        assert forall|i: int| 0 <= i < init.len() implies rewrite::slot_value(
            base,
            #[trigger] init[i],
        ) == rewrite::slot_value(packet, init[i]) by {
            assert(init[i] == slots[i]);
        }
        lemma_slots_patched(packet, base, init, data, redirect);
        assert forall|k: int| 0 <= k < base.len() && !slots::covered(slots, k) implies !(slot.offset
            <= k < slot.end()) && !slots::covered(init, k) by {
            assert(slots[slots.len() - 1] == slot);
            if slots::covered(init, k) {
                let i = choose|i: int|
                    0 <= i < init.len() && (#[trigger] init[i]).offset <= k < init[i].end();
                assert(init[i] == slots[i]);
            }
        }
        assert forall|k: int| slot.offset <= k < slot.end() implies #[trigger] before[k]
            == base[k] by {
            if slots::covered(init, k) {
                let i = choose|i: int|
                    0 <= i < init.len() && (#[trigger] init[i]).offset <= k < init[i].end();
                assert(init[i] == slots[i]);
                assert(slots[i].end() <= slots[slots.len() - 1].offset);
            }
        }
        bytes::lemma_field_agrees(before, base, slot.offset as int, slot.width());
        match rewrite::new_value(packet, slot, data, redirect) {
            Some(value) => {
                bytes::lemma_pow256_values();
                bytes::lemma_be_bytes_len(value, slot.width());
                assert(changes.drop_last() == earlier);
                bytes::lemma_field_overwritten(
                    before,
                    slot.offset as int,
                    value,
                    slot.width(),
                );
            },
            None => {
                assert(changes == earlier);
            },
        }
        assert forall|i: int| 0 <= i < slots.len() implies rewrite::slot_value(
            after,
            #[trigger] slots[i],
        ) == settled(packet, slots[i], data, redirect) by {
            if i < init.len() {
                assert(init[i] == slots[i]);
                assert(slots[i].end() <= slots[slots.len() - 1].offset);
                bytes::lemma_field_agrees(
                    after,
                    before,
                    slots[i].offset as int,
                    slots[i].width(),
                );
            }
        }
    }
}

proof fn lemma_patched_in_turn(
    packet: Seq<u8>,
    first: Seq<(int, Seq<u8>)>,
    second: Seq<(int, Seq<u8>)>,
)
    ensures
        rewrite::patched(packet, first + second) == rewrite::patched(
            rewrite::patched(packet, first),
            second,
        ),
    decreases second.len(),
{
    if second.len() == 0 {
        assert(first + second == first);
    } else {
        assert((first + second).drop_last() == first + second.drop_last());
        lemma_patched_in_turn(packet, first, second.drop_last());
    }
}

/// Whether every address of a record holds what it ought to after rewriting.
pub open spec fn record_settled(
    packet: Seq<u8>,
    after: Seq<u8>,
    record: Record,
    data: Data,
    redirect: Option<TestRedirect>,
) -> bool {
    let slots = slots::record_slots(packet, record);
    forall|i: int|
        0 <= i < slots.len() ==> rewrite::slot_value(after, #[trigger] slots[i]) == settled(
            packet,
            slots[i],
            data,
            rewrite::redirect_for(redirect, record),
        )
}

/// Whether two messages agree on the data of all the records.
spec fn same_data(a: Seq<u8>, b: Seq<u8>, records: Seq<Record>) -> bool {
    forall|i: int, k: int|
        0 <= i < records.len() && (#[trigger] records[i]).rdata <= k < records[i].end()
            ==> #[trigger] a[k] == b[k]
}

/// Making the changes of a message touches its addresses alone, and leaves in
/// each slot what it ought to hold.
proof fn lemma_message_patched(
    packet: Seq<u8>,
    base: Seq<u8>,
    records: Seq<Record>,
    data: Data,
    redirect: Option<TestRedirect>,
)
    requires
        packet.len() == base.len(),
        packet.len() <= usize::MAX,
        wire::laid_out(records, wire::HEADER as int, packet.len() as int),
        same_data(base, packet, records),
    ensures
        ({
            let after = rewrite::patched(
                base,
                rewrite::message_changes(packet, records, data, redirect),
            );
            &&& after.len() == base.len()
            &&& forall|k: int|
                0 <= k < base.len() && !slot_byte(packet, records, k) ==> #[trigger] after[k]
                    == base[k]
            &&& forall|i: int|
                0 <= i < records.len() ==> record_settled(
                    packet,
                    after,
                    #[trigger] records[i],
                    data,
                    redirect,
                )
        }),
    decreases records.len(),
{
    if records.len() > 0 {
        let init = records.drop_last();
        let record = records[records.len() - 1];
        let own = rewrite::redirect_for(redirect, record);
        let list = slots::record_slots(packet, record);
        let earlier = rewrite::message_changes(packet, init, data, redirect);
        let mine = rewrite::slot_changes(packet, list, data, own);
        let before = rewrite::patched(base, earlier);
        let after = rewrite::patched(
            base,
            rewrite::message_changes(packet, records, data, redirect),
        );
        rewrite::lemma_laid_out_init(records, wire::HEADER as int, packet.len() as int);
        assert(same_data(base, packet, init)) by {
            assert forall|i: int, k: int|
                0 <= i < init.len() && (#[trigger] init[i]).rdata <= k
                    < init[i].end() implies #[trigger] base[k] == packet[k] by {
                assert(init[i] == records[i]);
            }
        }
        lemma_message_patched(packet, base, init, data, redirect);
        lemma_patched_in_turn(base, earlier, mine);
        assert(after == rewrite::patched(before, mine));
        slots::lemma_slots_in_order(packet, record);
        // The earlier records end where this one starts.
        assert forall|k: int| record.start <= k < record.end() implies !slot_byte(
            packet,
            init,
            k,
        ) by {
            if slot_byte(packet, init, k) {
                let i = choose|i: int|
                    0 <= i < init.len() && slots::covered(
                        slots::record_slots(packet, #[trigger] init[i]),
                        k,
                    );
                assert(init[i] == records[i]);
                slots::lemma_slots_in_order(packet, init[i]);
                assert(records[i].end() <= records[records.len() - 1].start);
            }
        }
        assert forall|i: int| 0 <= i < list.len() implies rewrite::slot_value(
            before,
            #[trigger] list[i],
        ) == rewrite::slot_value(packet, list[i]) by {
            assert forall|k: int| list[i].offset <= k < list[i].end() implies #[trigger] before[k]
                == packet[k] by {
                assert(records[records.len() - 1].rdata <= k);
                assert(base[k] == packet[k]);
            }
            bytes::lemma_field_agrees(before, packet, list[i].offset as int, list[i].width());
        }
        assert(slots::in_order(list, 0, before.len() as int));
        lemma_slots_patched(packet, before, list, data, own);
        assert forall|k: int| 0 <= k < base.len() && !slot_byte(packet, records, k) implies #[trigger]
            after[k] == base[k] by {
            if slot_byte(packet, init, k) {
                let i = choose|i: int|
                    0 <= i < init.len() && slots::covered(
                        slots::record_slots(packet, #[trigger] init[i]),
                        k,
                    );
                assert(init[i] == records[i]);
            }
            assert(records[records.len() - 1] == record);
            assert(before[k] == base[k]);
        }
        assert forall|i: int| 0 <= i < records.len() implies record_settled(
            packet,
            after,
            #[trigger] records[i],
            data,
            redirect,
        ) by {
            if i < init.len() {
                assert(init[i] == records[i]);
                assert(record_settled(packet, before, init[i], data, redirect));
                assert(records[i].end() <= records[records.len() - 1].start);
                slots::lemma_slots_in_order(packet, records[i]);
                let others = slots::record_slots(packet, records[i]);
                assert forall|j: int| 0 <= j < others.len() implies rewrite::slot_value(
                    after,
                    #[trigger] others[j],
                ) == settled(
                    packet,
                    others[j],
                    data,
                    rewrite::redirect_for(redirect, records[i]),
                ) by {
                    bytes::lemma_field_agrees(
                        after,
                        before,
                        others[j].offset as int,
                        others[j].width(),
                    );
                }
            }
        }
    }
}

/// The message after rewriting.
pub open spec fn after_of(
    packet: Seq<u8>,
    data: Data,
    redirect: Option<TestRedirect>,
    rewrite_ttl: u32,
) -> Seq<u8> {
    rewrite::rewritten(packet, wire::records_of(packet)->0, data, redirect, rewrite_ttl)
}

/// How many addresses rewriting changes.
pub open spec fn count_of(packet: Seq<u8>, data: Data, redirect: Option<TestRedirect>) -> nat {
    rewrite::message_changes(packet, wire::records_of(packet)->0, data, redirect).len()
}

/// The TTL that a record has after rewriting.
pub open spec fn ttl_after(
    packet: Seq<u8>,
    record: Record,
    data: Data,
    redirect: Option<TestRedirect>,
    rewrite_ttl: u32,
) -> nat {
    let rewritable = rewrite::has_rewritable(packet, wire::records_of(packet)->0, data);
    let changed = count_of(packet, data, redirect) > 0;
    let old_ttl = rewrite::ttl_value(packet, record);
    if !rewrite::is_pseudo(record) && (rewritable || changed) {
        rewrite::lesser(old_ttl, rewrite::ttl_limit(rewritable, changed, rewrite_ttl as nat))
    } else {
        old_ttl
    }
}

/// Addresses lie behind the TTL fields, in the data of their records.
proof fn lemma_slot_bytes_in_data(packet: Seq<u8>, records: Seq<Record>, k: int)
    requires
        packet.len() <= usize::MAX,
        wire::laid_out(records, wire::HEADER as int, packet.len() as int),
        slot_byte(packet, records, k),
    ensures
        exists|i: int|
            0 <= i < records.len() && (#[trigger] records[i]).rdata <= k < records[i].end(),
{
    let i = choose|i: int|
        0 <= i < records.len() && slots::covered(
            slots::record_slots(packet, #[trigger] records[i]),
            k,
        );
    slots::lemma_slots_in_order(packet, records[i]);
    assert(records[i].rdata <= k < records[i].end());
}

/// A byte of a TTL field is not among the data of a record.
proof fn lemma_ttl_bytes_not_in_data(records: Seq<Record>, low: int, high: int, i: int, k: int)
    requires
        wire::laid_out(records, low, high),
        0 <= i < records.len(),
        records[i].ttl <= k < records[i].ttl + 4,
    ensures
        forall|j: int|
            0 <= j < records.len() ==> !((#[trigger] records[j]).rdata <= k < records[j].end()),
{
    assert forall|j: int| 0 <= j < records.len() implies !((#[trigger] records[j]).rdata <= k
        < records[j].end()) by {
        if j < i {
            assert(records[j].end() <= records[i].start);
        } else if i < j {
            assert(records[i].end() <= records[j].start);
        }
    }
}

/// The whole effect of rewriting, byte by byte, TTL by TTL and slot by slot.
pub proof fn lemma_rewritten(
    packet: Seq<u8>,
    data: Data,
    redirect: Option<TestRedirect>,
    rewrite_ttl: u32,
)
    requires
        packet.len() <= usize::MAX,
        wire::records_of(packet) is Some,
    ensures
        ({
            let records = wire::records_of(packet)->0;
            let after = after_of(packet, data, redirect, rewrite_ttl);
            &&& after.len() == packet.len()
            &&& packet.len() >= wire::HEADER
            &&& wire::laid_out(records, wire::HEADER as int, packet.len() as int)
            &&& after[3] == (if count_of(packet, data, redirect) > 0 {
                rewrite::without_ad(packet[3])
            } else {
                packet[3]
            })
            &&& forall|k: int|
                0 <= k < packet.len() && k != 3 && !ttl_byte(records, k) && !slot_byte(
                    packet,
                    records,
                    k,
                ) ==> #[trigger] after[k] == packet[k]
            &&& forall|i: int|
                0 <= i < records.len() ==> rewrite::ttl_value(after, #[trigger] records[i])
                    == ttl_after(packet, records[i], data, redirect, rewrite_ttl)
            &&& forall|i: int|
                0 <= i < records.len() ==> record_settled(
                    packet,
                    after,
                    #[trigger] records[i],
                    data,
                    redirect,
                )
        }),
{
    wire::lemma_records_laid_out(packet);
    let records = wire::records_of(packet)->0;
    let after = after_of(packet, data, redirect, rewrite_ttl);
    let changes = rewrite::message_changes(packet, records, data, redirect);
    let rewritable = rewrite::has_rewritable(packet, records, data);
    let limit = rewrite::ttl_limit(rewritable, changes.len() > 0, rewrite_ttl as nat);
    let base = if rewritable || changes.len() > 0 {
        rewrite::capped(packet, records, limit)
    } else {
        packet
    };
    let out = rewrite::patched(base, changes);
    lemma_capped(packet, records, limit);
    assert(same_data(base, packet, records)) by {
        assert forall|i: int, k: int|
            0 <= i < records.len() && (#[trigger] records[i]).rdata <= k
                < records[i].end() implies #[trigger] base[k] == packet[k] by {
            if ttl_byte(records, k) {
                let j = choose|j: int|
                    0 <= j < records.len() && !rewrite::is_pseudo(#[trigger] records[j])
                        && records[j].ttl <= k < records[j].ttl + 4;
                lemma_ttl_bytes_not_in_data(
                    records,
                    wire::HEADER as int,
                    packet.len() as int,
                    j,
                    k,
                );
            }
        }
    }
    lemma_message_patched(packet, base, records, data, redirect);
    assert(changes.len() == 0 ==> out == base);
    // The header is out of reach.
    assert(out[3] == packet[3] && !ttl_byte(records, 3) && !slot_byte(packet, records, 3)) by {
        if slot_byte(packet, records, 3) {
            lemma_slot_bytes_in_data(packet, records, 3);
        }
        assert(out[3] == base[3]);
    }
    assert(after.len() == packet.len());
    assert(forall|k: int| 0 <= k < packet.len() && k != 3 ==> #[trigger] after[k] == out[k]);
    assert forall|i: int| 0 <= i < records.len() implies rewrite::ttl_value(
        after,
        #[trigger] records[i],
    ) == ttl_after(packet, records[i], data, redirect, rewrite_ttl) by {
        let record = records[i];
        assert forall|k: int| record.ttl <= k < record.ttl + 4 implies #[trigger] after[k]
            == base[k] by {
            lemma_ttl_bytes_not_in_data(records, wire::HEADER as int, packet.len() as int, i, k);
            if slot_byte(packet, records, k) {
                lemma_slot_bytes_in_data(packet, records, k);
            }
            assert(out[k] == base[k]);
        }
        bytes::lemma_field_agrees(after, base, record.ttl as int, 4);
        if rewrite::is_pseudo(record) {
            assert forall|k: int| record.ttl <= k < record.ttl + 4 implies #[trigger] base[k]
                == packet[k] by {
                if ttl_byte(records, k) {
                    let j = choose|j: int|
                        0 <= j < records.len() && !rewrite::is_pseudo(#[trigger] records[j])
                            && records[j].ttl <= k < records[j].ttl + 4;
                    if j < i {
                        assert(records[j].end() <= records[i].start);
                    } else if i < j {
                        assert(records[i].end() <= records[j].start);
                    }
                }
            }
            bytes::lemma_field_agrees(base, packet, record.ttl as int, 4);
        }
    }
    assert forall|i: int| 0 <= i < records.len() implies record_settled(
        packet,
        after,
        #[trigger] records[i],
        data,
        redirect,
    ) by {
        assert(record_settled(packet, out, records[i], data, redirect));
        let list = slots::record_slots(packet, records[i]);
        slots::lemma_slots_in_order(packet, records[i]);
        assert forall|j: int| 0 <= j < list.len() implies rewrite::slot_value(
            after,
            #[trigger] list[j],
        ) == settled(packet, list[j], data, rewrite::redirect_for(redirect, records[i])) by {
            bytes::lemma_field_agrees(after, out, list[j].offset as int, list[j].width());
        }
    }
}

/// Rewriting is in place. The message keeps its length, and of its bytes only
/// those of TTLs and of addresses may change, and in the header the claim of
/// validated data: names, compression pointers, types, lengths, the other flags
/// and the data of all other records stay.
pub proof fn law_rewrite_in_place(
    packet: Seq<u8>,
    data: Data,
    redirect: Option<TestRedirect>,
    rewrite_ttl: u32,
    k: int,
)
    requires
        packet.len() <= usize::MAX,
        wire::records_of(packet) is Some,
        0 <= k < packet.len(),
        k != 3,
        !ttl_byte(wire::records_of(packet)->0, k),
        !slot_byte(packet, wire::records_of(packet)->0, k),
    ensures
        after_of(packet, data, redirect, rewrite_ttl).len() == packet.len(),
        after_of(packet, data, redirect, rewrite_ttl)[k] == packet[k],
{
    lemma_rewritten(packet, data, redirect, rewrite_ttl);
}

/// The header and the questions stay, but for the claim of validated data.
pub proof fn law_header_and_questions_stay(
    packet: Seq<u8>,
    data: Data,
    redirect: Option<TestRedirect>,
    rewrite_ttl: u32,
)
    requires
        packet.len() <= usize::MAX,
        wire::records_of(packet) is Some,
    ensures
        ({
            let after = after_of(packet, data, redirect, rewrite_ttl);
            let first = wire::questions_end(
                packet,
                wire::HEADER as int,
                bytes::be_field(packet, 4, 2),
            )->0;
            &&& after.len() == packet.len()
            &&& wire::HEADER <= first <= packet.len()
            &&& forall|k: int| 0 <= k < first && k != 3 ==> #[trigger] after[k] == packet[k]
        }),
{
    let records = wire::records_of(packet)->0;
    let after = after_of(packet, data, redirect, rewrite_ttl);
    let first = wire::questions_end(packet, wire::HEADER as int, bytes::be_field(packet, 4, 2))->0;
    lemma_rewritten(packet, data, redirect, rewrite_ttl);
    wire::lemma_records_behind_questions(packet);
    assert forall|k: int| 0 <= k < first && k != 3 implies #[trigger] after[k] == packet[k] by {
        if slot_byte(packet, records, k) {
            lemma_slot_bytes_in_data(packet, records, k);
        }
    }
}

/// The claim of validated data is withdrawn exactly where an address changes:
/// the new address no longer matches its signature. Nothing else in the flags
/// changes.
pub proof fn law_validated_flag(
    packet: Seq<u8>,
    data: Data,
    redirect: Option<TestRedirect>,
    rewrite_ttl: u32,
)
    requires
        packet.len() <= usize::MAX,
        wire::records_of(packet) is Some,
    ensures
        after_of(packet, data, redirect, rewrite_ttl).len() == packet.len(),
        after_of(packet, data, redirect, rewrite_ttl)[3] == (if count_of(packet, data, redirect)
            > 0 {
            rewrite::without_ad(packet[3])
        } else {
            packet[3]
        }),
        after_of(packet, data, redirect, rewrite_ttl)[3] % 0x20 == packet[3] % 0x20,
        after_of(packet, data, redirect, rewrite_ttl)[3] / 0x40 == packet[3] / 0x40,
{
    lemma_rewritten(packet, data, redirect, rewrite_ttl);
}

/// A rewritten message has the same records at the same places, in the same
/// order, with addresses at the same places.
pub proof fn law_rewrite_keeps_records(
    packet: Seq<u8>,
    data: Data,
    redirect: Option<TestRedirect>,
    rewrite_ttl: u32,
)
    requires
        packet.len() <= usize::MAX,
        wire::records_of(packet) is Some,
    ensures
        wire::records_of(after_of(packet, data, redirect, rewrite_ttl)) == wire::records_of(packet),
        forall|i: int|
            0 <= i < wire::records_of(packet)->0.len() ==> slots::record_slots(
                after_of(packet, data, redirect, rewrite_ttl),
                #[trigger] wire::records_of(packet)->0[i],
            ) == slots::record_slots(packet, wire::records_of(packet)->0[i]),
{
    let records = wire::records_of(packet)->0;
    let after = after_of(packet, data, redirect, rewrite_ttl);
    lemma_rewritten(packet, data, redirect, rewrite_ttl);
    assert forall|k: int| 4 <= k < packet.len() && wire::is_frame(records, k) implies #[trigger]
        packet[k] == after[k] by {
        if slot_byte(packet, records, k) {
            lemma_slot_bytes_in_data(packet, records, k);
        }
    }
    wire::lemma_records_stable(packet, after);
    assert forall|i: int| 0 <= i < records.len() implies slots::record_slots(
        after,
        #[trigger] records[i],
    ) == slots::record_slots(packet, records[i]) by {
        let record = records[i];
        assert forall|k: int|
            record.rdata <= k < record.end() && !slots::covered(
                slots::record_slots(packet, record),
                k,
            ) implies #[trigger] packet[k] == after[k] by {
            if ttl_byte(records, k) {
                let j = choose|j: int|
                    0 <= j < records.len() && !rewrite::is_pseudo(#[trigger] records[j])
                        && records[j].ttl <= k < records[j].ttl + 4;
                lemma_ttl_bytes_not_in_data(
                    records,
                    wire::HEADER as int,
                    packet.len() as int,
                    j,
                    k,
                );
            }
            if slot_byte(packet, records, k) {
                let j = choose|j: int|
                    0 <= j < records.len() && slots::covered(
                        slots::record_slots(packet, #[trigger] records[j]),
                        k,
                    );
                slots::lemma_slots_in_order(packet, records[j]);
                if j < i {
                    assert(records[j].end() <= records[i].start);
                } else if i < j {
                    assert(records[i].end() <= records[j].start);
                }
            }
        }
        slots::lemma_slots_stable(packet, after, record);
    }
}

/// Rewriting never raises a TTL. Where the message holds an address of the
/// rewritable ranges, or one that changes, every TTL is at most the limit
/// afterwards, and one that was below it stays; else every TTL stays. The fields
/// of pseudo-records stay in any case.
pub proof fn law_ttls_only_fall(
    packet: Seq<u8>,
    data: Data,
    redirect: Option<TestRedirect>,
    rewrite_ttl: u32,
    i: int,
)
    requires
        packet.len() <= usize::MAX,
        wire::records_of(packet) is Some,
        0 <= i < wire::records_of(packet)->0.len(),
    ensures
        ({
            let record = wire::records_of(packet)->0[i];
            let after = after_of(packet, data, redirect, rewrite_ttl);
            &&& rewrite::ttl_value(after, record) == ttl_after(
                packet,
                record,
                data,
                redirect,
                rewrite_ttl,
            )
            &&& rewrite::ttl_value(after, record) <= rewrite::ttl_value(packet, record)
        }),
{
    lemma_rewritten(packet, data, redirect, rewrite_ttl);
}

/// After rewriting, every address is what it ought to be: what the redirect pins
/// for its family in the answer section, else the free neighbour of a blocked
/// address, else what it was.
pub proof fn law_addresses_settled(
    packet: Seq<u8>,
    data: Data,
    redirect: Option<TestRedirect>,
    rewrite_ttl: u32,
    i: int,
)
    requires
        packet.len() <= usize::MAX,
        wire::records_of(packet) is Some,
        0 <= i < wire::records_of(packet)->0.len(),
    ensures
        record_settled(
            packet,
            after_of(packet, data, redirect, rewrite_ttl),
            wire::records_of(packet)->0[i],
            data,
            redirect,
        ),
{
    lemma_rewritten(packet, data, redirect, rewrite_ttl);
}

/// Whether an address is blocked though a free neighbour could stand in.
pub open spec fn evadable(data: Data, v6: bool, value: nat) -> bool {
    if v6 {
        data.replacement_v6(value as u128) is Some
    } else {
        data.replacement_v4(value as u32) is Some
    }
}

pub proof fn lemma_slot_bound(packet: Seq<u8>, slot: Slot)
    requires
        slot.end() <= packet.len(),
    ensures
        slot.v6 ==> rewrite::slot_value(packet, slot) <= u128::MAX,
        !slot.v6 ==> rewrite::slot_value(packet, slot) <= u32::MAX,
{
    bytes::lemma_pow256_values();
    bytes::lemma_be_value_bound(packet.subrange(slot.offset as int, slot.end()));
}

proof fn lemma_replacement_is_free(data: Data, v6: bool, value: nat)
    requires
        rewrite::wanted(data, None, v6, value) is Some,
        v6 ==> value <= u128::MAX,
        !v6 ==> value <= u32::MAX,
    ensures
        rewrite::wanted(data, None, v6, value)->0 != value,
        !evadable(data, v6, rewrite::wanted(data, None, v6, value)->0),
        rewrite::rewritable(data, v6, value),
{
    if v6 {
        evasion::law_neighbour_v6(value as u128, data.cf_v6@, data.blocked_v6@);
    } else {
        evasion::law_neighbour_v4(value as u32, data.cf_v4@, data.blocked_v4@);
    }
}

/// Without a redirect, no client gets a blocked address for which there is a free
/// neighbour: neither in an A or AAAA record nor in a hint, in any section.
pub proof fn law_no_evadable_address_left(
    packet: Seq<u8>,
    data: Data,
    rewrite_ttl: u32,
    i: int,
    j: int,
)
    requires
        packet.len() <= usize::MAX,
        wire::records_of(packet) is Some,
        0 <= i < wire::records_of(packet)->0.len(),
        0 <= j < slots::record_slots(packet, wire::records_of(packet)->0[i]).len(),
    ensures
        ({
            let slot = slots::record_slots(packet, wire::records_of(packet)->0[i])[j];
            let after = after_of(packet, data, None, rewrite_ttl);
            !evadable(data, slot.v6, rewrite::slot_value(after, slot))
        }),
{
    let record = wire::records_of(packet)->0[i];
    let slot = slots::record_slots(packet, record)[j];
    lemma_rewritten(packet, data, None, rewrite_ttl);
    assert(record_settled(
        packet,
        after_of(packet, data, None, rewrite_ttl),
        record,
        data,
        None,
    ));
    slots::lemma_slots_in_order(packet, record);
    lemma_slot_bound(packet, slot);
    let value = rewrite::slot_value(packet, slot);
    if rewrite::wanted(data, None, slot.v6, value) is Some {
        lemma_replacement_is_free(data, slot.v6, value);
    }
}

/// Without a redirect, a blocked address for which there is a free neighbour is
/// replaced by another address of the very same rewritable range that is not
/// blocked; any other address stays.
pub proof fn law_blocked_address_moves_to_neighbour(
    packet: Seq<u8>,
    data: Data,
    rewrite_ttl: u32,
    i: int,
    j: int,
)
    requires
        packet.len() <= usize::MAX,
        wire::records_of(packet) is Some,
        0 <= i < wire::records_of(packet)->0.len(),
        0 <= j < slots::record_slots(packet, wire::records_of(packet)->0[i]).len(),
    ensures
        ({
            let slot = slots::record_slots(packet, wire::records_of(packet)->0[i])[j];
            let before = rewrite::slot_value(packet, slot);
            let after = rewrite::slot_value(after_of(packet, data, None, rewrite_ttl), slot);
            if !evadable(data, slot.v6, before) {
                after == before
            } else if slot.v6 {
                &&& after != before
                &&& data.blocked_v6@.contains(before as u128)
                &&& !data.blocked_v6@.contains(after as u128)
                &&& ranges::range_of(data.cf_v6@, before as u128) matches Some(range)
                &&& ranges::within(range, after as u128)
            } else {
                &&& after != before
                &&& data.blocked_v4@.contains(before as u32)
                &&& !data.blocked_v4@.contains(after as u32)
                &&& ranges::range_of(data.cf_v4@, before as u32) matches Some(range)
                &&& ranges::within(range, after as u32)
            }
        }),
{
    let record = wire::records_of(packet)->0[i];
    let slot = slots::record_slots(packet, record)[j];
    let before = rewrite::slot_value(packet, slot);
    lemma_rewritten(packet, data, None, rewrite_ttl);
    assert(record_settled(
        packet,
        after_of(packet, data, None, rewrite_ttl),
        record,
        data,
        None,
    ));
    slots::lemma_slots_in_order(packet, record);
    lemma_slot_bound(packet, slot);
    if slot.v6 {
        evasion::law_neighbour_v6(before as u128, data.cf_v6@, data.blocked_v6@);
    } else {
        evasion::law_neighbour_v4(before as u32, data.cf_v4@, data.blocked_v4@);
    }
}

/// A redirect pins every address of its family in the answer section, in
/// records as in hints.
pub proof fn law_redirect_pins_answers(
    packet: Seq<u8>,
    data: Data,
    redirect: TestRedirect,
    rewrite_ttl: u32,
    i: int,
    j: int,
)
    requires
        packet.len() <= usize::MAX,
        wire::records_of(packet) is Some,
        0 <= i < wire::records_of(packet)->0.len(),
        wire::records_of(packet)->0[i].answer,
        0 <= j < slots::record_slots(packet, wire::records_of(packet)->0[i]).len(),
    ensures
        ({
            let slot = slots::record_slots(packet, wire::records_of(packet)->0[i])[j];
            let value = rewrite::slot_value(
                after_of(packet, data, Some(redirect), rewrite_ttl),
                slot,
            );
            &&& !slot.v6 && redirect.v4 is Some ==> value == redirect.v4->0
            &&& slot.v6 && redirect.v6 is Some ==> value == redirect.v6->0
        }),
{
    lemma_rewritten(packet, data, Some(redirect), rewrite_ttl);
    assert(record_settled(
        packet,
        after_of(packet, data, Some(redirect), rewrite_ttl),
        wire::records_of(packet)->0[i],
        data,
        Some(redirect),
    ));
}

proof fn lemma_no_slot_changes(
    packet: Seq<u8>,
    slots: Seq<Slot>,
    data: Data,
    redirect: Option<TestRedirect>,
)
    requires
        forall|i: int|
            0 <= i < slots.len() ==> rewrite::new_value(
                packet,
                #[trigger] slots[i],
                data,
                redirect,
            ) is None,
    ensures
        rewrite::slot_changes(packet, slots, data, redirect).len() == 0,
    decreases slots.len(),
{
    if slots.len() > 0 {
        let init = slots.drop_last();
        assert forall|i: int| 0 <= i < init.len() implies rewrite::new_value(
            packet,
            #[trigger] init[i],
            data,
            redirect,
        ) is None by {
            assert(init[i] == slots[i]);
        }
        lemma_no_slot_changes(packet, init, data, redirect);
        assert(slots.last() == slots[slots.len() - 1]);
    }
}

/// Whether no address of a record is to change.
spec fn at_rest(
    packet: Seq<u8>,
    record: Record,
    data: Data,
    redirect: Option<TestRedirect>,
) -> bool {
    let slots = slots::record_slots(packet, record);
    forall|i: int|
        0 <= i < slots.len() ==> rewrite::new_value(
            packet,
            #[trigger] slots[i],
            data,
            rewrite::redirect_for(redirect, record),
        ) is None
}

proof fn lemma_no_changes(
    packet: Seq<u8>,
    records: Seq<Record>,
    data: Data,
    redirect: Option<TestRedirect>,
)
    requires
        forall|i: int|
            0 <= i < records.len() ==> at_rest(packet, #[trigger] records[i], data, redirect),
    ensures
        rewrite::message_changes(packet, records, data, redirect).len() == 0,
    decreases records.len(),
{
    if records.len() > 0 {
        let init = records.drop_last();
        assert forall|i: int| 0 <= i < init.len() implies at_rest(
            packet,
            #[trigger] init[i],
            data,
            redirect,
        ) by {
            assert(init[i] == records[i]);
        }
        lemma_no_changes(packet, init, data, redirect);
        let record = records[records.len() - 1];
        assert(at_rest(packet, record, data, redirect));
        lemma_no_slot_changes(
            packet,
            slots::record_slots(packet, record),
            data,
            rewrite::redirect_for(redirect, record),
        );
    }
}

/// Outside the rewritable ranges nothing is touched: without a redirect, a
/// message that holds no address of these ranges stays as it is.
pub proof fn law_outside_ranges_untouched(packet: Seq<u8>, data: Data, rewrite_ttl: u32)
    requires
        packet.len() <= usize::MAX,
        wire::records_of(packet) is Some,
        !rewrite::has_rewritable(packet, wire::records_of(packet)->0, data),
    ensures
        after_of(packet, data, None, rewrite_ttl) == packet,
        count_of(packet, data, None) == 0,
{
    let records = wire::records_of(packet)->0;
    wire::lemma_records_laid_out(packet);
    assert forall|i: int| 0 <= i < records.len() implies at_rest(
        packet,
        #[trigger] records[i],
        data,
        None,
    ) by {
        let list = slots::record_slots(packet, records[i]);
        slots::lemma_slots_in_order(packet, records[i]);
        assert(!rewrite::any_rewritable(packet, list, data));
        assert forall|j: int| 0 <= j < list.len() implies rewrite::new_value(
            packet,
            #[trigger] list[j],
            data,
            None,
        ) is None by {
            let value = rewrite::slot_value(packet, list[j]);
            lemma_slot_bound(packet, list[j]);
            if rewrite::wanted(data, None, list[j].v6, value) is Some {
                lemma_replacement_is_free(data, list[j].v6, value);
            }
        }
    }
    lemma_no_changes(packet, records, data, None);
}

/// Without rewritable ranges there is no evasion: every message that no redirect
/// applies to stays as it is.
pub proof fn law_no_ranges_no_evasion(packet: Seq<u8>, data: Data, rewrite_ttl: u32)
    requires
        packet.len() <= usize::MAX,
        wire::records_of(packet) is Some,
        data.cf_v4@.len() == 0,
        data.cf_v6@.len() == 0,
    ensures
        after_of(packet, data, None, rewrite_ttl) == packet,
        count_of(packet, data, None) == 0,
{
    law_outside_ranges_untouched(packet, data, rewrite_ttl);
}

/// Rewriting is done in one pass: a second one under the same lists and redirect
/// finds no address to change.
pub proof fn law_second_pass_changes_no_address(
    packet: Seq<u8>,
    data: Data,
    redirect: Option<TestRedirect>,
    rewrite_ttl: u32,
)
    requires
        packet.len() <= usize::MAX,
        wire::records_of(packet) is Some,
    ensures
        count_of(after_of(packet, data, redirect, rewrite_ttl), data, redirect) == 0,
{
    let records = wire::records_of(packet)->0;
    let after = after_of(packet, data, redirect, rewrite_ttl);
    lemma_rewritten(packet, data, redirect, rewrite_ttl);
    law_rewrite_keeps_records(packet, data, redirect, rewrite_ttl);
    assert forall|i: int| 0 <= i < records.len() implies at_rest(
        after,
        #[trigger] records[i],
        data,
        redirect,
    ) by {
        let own = rewrite::redirect_for(redirect, records[i]);
        let list = slots::record_slots(packet, records[i]);
        assert(slots::record_slots(after, records[i]) == list);
        assert(record_settled(packet, after, records[i], data, redirect));
        slots::lemma_slots_in_order(packet, records[i]);
        assert forall|j: int| 0 <= j < list.len() implies rewrite::new_value(
            after,
            #[trigger] list[j],
            data,
            own,
        ) is None by {
            let value = rewrite::slot_value(packet, list[j]);
            lemma_slot_bound(packet, list[j]);
            if rewrite::wanted(data, None, list[j].v6, value) is Some {
                lemma_replacement_is_free(data, list[j].v6, value);
            }
        }
    }
    lemma_no_changes(after, records, data, redirect);
}

proof fn lemma_capped_idle(packet: Seq<u8>, records: Seq<Record>, limit: nat)
    requires
        wire::laid_out(records, wire::HEADER as int, packet.len() as int),
        forall|i: int|
            0 <= i < records.len() && !rewrite::is_pseudo(#[trigger] records[i])
                ==> rewrite::ttl_value(packet, records[i]) <= limit,
    ensures
        rewrite::capped(packet, records, limit) == packet,
    decreases records.len(),
{
    if records.len() > 0 {
        let init = records.drop_last();
        rewrite::lemma_laid_out_init(records, wire::HEADER as int, packet.len() as int);
        assert forall|i: int|
            0 <= i < init.len() && !rewrite::is_pseudo(#[trigger] init[i]) implies rewrite::ttl_value(
            packet,
            init[i],
        ) <= limit by {
            assert(init[i] == records[i]);
        }
        lemma_capped_idle(packet, init, limit);
        let record = records[records.len() - 1];
        let at = record.ttl as int;
        bytes::law_be_value_then_bytes(packet.subrange(at, at + 4));
        assert(bytes::overwrite(packet, at, packet.subrange(at, at + 4)) =~= packet);
    }
}

/// Without a redirect, rewriting a rewritten message leaves it as it is.
pub proof fn law_rewrite_idempotent(packet: Seq<u8>, data: Data, rewrite_ttl: u32)
    requires
        packet.len() <= usize::MAX,
        wire::records_of(packet) is Some,
    ensures
        after_of(after_of(packet, data, None, rewrite_ttl), data, None, rewrite_ttl) == after_of(
            packet,
            data,
            None,
            rewrite_ttl,
        ),
{
    let records = wire::records_of(packet)->0;
    let after = after_of(packet, data, None, rewrite_ttl);
    lemma_rewritten(packet, data, None, rewrite_ttl);
    law_rewrite_keeps_records(packet, data, None, rewrite_ttl);
    law_second_pass_changes_no_address(packet, data, None, rewrite_ttl);
    if rewrite::has_rewritable(after, records, data) {
        let i = choose|i: int|
            0 <= i < records.len() && rewrite::any_rewritable(
                after,
                slots::record_slots(after, #[trigger] records[i]),
                data,
            );
        let list = slots::record_slots(packet, records[i]);
        assert(slots::record_slots(after, records[i]) == list);
        let j = choose|j: int|
            0 <= j < list.len() && rewrite::rewritable(
                data,
                (#[trigger] list[j]).v6,
                rewrite::slot_value(after, list[j]),
            );
        assert(record_settled(packet, after, records[i], data, None));
        slots::lemma_slots_in_order(packet, records[i]);
        lemma_slot_bound(packet, list[j]);
        let value = rewrite::slot_value(packet, list[j]);
        if rewrite::wanted(data, None, list[j].v6, value) is Some {
            lemma_replacement_is_free(data, list[j].v6, value);
        }
        assert(rewrite::any_rewritable(packet, list, data));
        assert(rewrite::has_rewritable(packet, records, data));
        assert forall|n: int|
            0 <= n < records.len() && !rewrite::is_pseudo(#[trigger] records[n]) implies rewrite::ttl_value(
            after,
            records[n],
        ) <= rewrite::CLOUDFLARE_MAX_TTL as nat by {
            assert(rewrite::ttl_value(after, records[n]) == ttl_after(
                packet,
                records[n],
                data,
                None,
                rewrite_ttl,
            ));
        }
        lemma_capped_idle(after, records, rewrite::CLOUDFLARE_MAX_TTL as nat);
    }
}

} // verus!
