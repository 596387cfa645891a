//! What the proxy does every second beside its traffic.

use crate::counters::Counters;
use crate::evasion::Data;
use crate::promises;
use crate::proxy;
use crate::proxy::App;
use crate::redirects;
use crate::redirects::{Redirects, Timestamp};
use std::sync::Arc;
use vstd::prelude::*;

verus! {

/// Ticks from one look at the list files to the next.
pub const LIST_TICKS: u8 = 5;

/// When a file was last changed, in nanoseconds since the epoch, and its size.
#[derive(Clone, Copy, Debug)]
pub struct Stamp {
    pub modified: i128,
    pub len: u64,
}

/// The stamps of the list files; `None` for one that cannot be read.
#[derive(Clone, Copy, Debug)]
pub struct ListStamps {
    pub blocked_v4: Option<Stamp>,
    pub blocked_v6: Option<Stamp>,
    pub cf_v4: Option<Stamp>,
    pub cf_v6: Option<Stamp>,
}

fn same_stamp(a: Option<Stamp>, b: Option<Stamp>) -> (answer: bool)
    ensures
        answer == (a == b),
{
    match (a, b) {
        (Some(a), Some(b)) => a.modified == b.modified && a.len == b.len,
        (None, None) => true,
        _ => false,
    }
}

impl ListStamps {
    /// Whether no file has changed from one look to the other.
    pub fn is_equal(&self, other: &ListStamps) -> (answer: bool)
        ensures
            answer == (*self == *other),
    {
        same_stamp(self.blocked_v4, other.blocked_v4) && same_stamp(
            self.blocked_v6,
            other.blocked_v6,
        ) && same_stamp(self.cf_v4, other.cf_v4) && same_stamp(self.cf_v6, other.cf_v6)
    }
}

/// The state of the upkeep.
#[derive(Clone, Copy, Debug)]
pub struct Maintenance {
    /// Seconds, round and round.
    pub ticks: u8,
    /// The stamps of the last load. Before the first one there are none, which
    /// forces one load: a file may have changed while the proxy started.
    pub stamps: Option<ListStamps>,
}

/// The tick that follows.
pub open spec fn next_tick(ticks: u8) -> u8 {
    ((ticks + 1) % 256) as u8
}

/// Whether the list files are looked at on this tick.
pub open spec fn due(ticks: u8) -> bool {
    ticks % LIST_TICKS == 0
}

impl Maintenance {
    /// The state at the start.
    pub fn new() -> (state: Maintenance)
        ensures
            state.ticks == 0,
            state.stamps is None,
    {
        Maintenance { ticks: 0, stamps: None }
    }

    /// Counts one tick; tells whether it is time to look at the list files and to
    /// save the counters.
    pub fn tick(&mut self) -> (lists_due: bool)
        ensures
            final(self).ticks == next_tick(old(self).ticks),
            final(self).stamps == old(self).stamps,
            lists_due == due(final(self).ticks),
    {
        self.ticks = self.ticks.wrapping_add(1);
        self.ticks % LIST_TICKS == 0
    }

    /// Takes note of the stamps; tells whether the lists are to be loaded, that
    /// is whether a file has changed since the last load.
    pub fn note_stamps(&mut self, current: ListStamps) -> (reload: bool)
        ensures
            reload == (old(self).stamps != Some(current)),
            final(self).stamps == Some(current),
            final(self).ticks == old(self).ticks,
    {
        let reload: bool = match &self.stamps {
            Some(stamps) => !stamps.is_equal(&current),
            None => true,
        };
        self.stamps = Some(current);
        reload
    }
}

/// The list files are looked at again at the latest `LIST_TICKS` ticks after any
/// tick.
pub proof fn law_lists_due_in_time(ticks: u8)
    ensures
        ({
            let first = next_tick(ticks);
            let second = next_tick(first);
            let third = next_tick(second);
            let fourth = next_tick(third);
            let fifth = next_tick(fourth);
            due(first) || due(second) || due(third) || due(fourth) || due(fifth)
        }),
{
}

impl App {
    /// Takes up what the file of temporary redirects holds now; tells whether
    /// anything is different.
    pub fn install_redirects(&mut self, fresh: Redirects) -> (changed: bool)
        requires
            old(self).wf(),
            fresh.wf(),
        ensures
            final(self).wf(),
            changed == !redirects::same_table(old(self).temporary_redirects@, fresh@),
            final(self).temporary_redirects == (if changed {
                fresh
            } else {
                old(self).temporary_redirects
            }),
            final(self).data == old(self).data,
            final(self).counters == old(self).counters,
            final(self).rewrite_ttl == old(self).rewrite_ttl,
            final(self).test_redirects == old(self).test_redirects,
            final(self).limits == old(self).limits,
            forall|packet: Seq<u8>, now: Timestamp|
                promises::pin_alike(
                    #[trigger] final(self).redirect(packet, now),
                    proxy::active(old(self).test_redirects@, fresh@, packet, now),
                ),
    {
        proof {
            if redirects::same_table(self.temporary_redirects@, fresh@) {
                assert forall|packet: Seq<u8>, now: Timestamp| promises::pin_alike(
                    #[trigger] self.redirect(packet, now),
                    proxy::active(self.test_redirects@, fresh@, packet, now),
                ) by {
                    promises::law_same_tables_do_the_same(
                        self.test_redirects@,
                        self.temporary_redirects@,
                        fresh@,
                        Seq::empty(),
                        packet,
                        now,
                    );
                }
            }
        }
        let changed: bool = !self.temporary_redirects.is_equal(&fresh);
        if changed {
            self.temporary_redirects = fresh;
        }
        changed
    }

    /// Takes up lists that were loaded anew, and notes the time.
    pub fn install_lists(&mut self, fresh: Data, now: Timestamp)
        requires
            old(self).wf(),
            fresh.wf(),
        ensures
            final(self).wf(),
            *final(self).data == fresh,
            final(self).counters == (Counters { last_reload: now, ..old(self).counters }),
            final(self).rewrite_ttl == old(self).rewrite_ttl,
            final(self).test_redirects == old(self).test_redirects,
            final(self).temporary_redirects == old(self).temporary_redirects,
            final(self).limits == old(self).limits,
    {
        self.data = Arc::new(fresh);
        self.counters.last_reload = now;
    }
}

} // verus!
