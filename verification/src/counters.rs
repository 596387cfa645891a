//! What the proxy counts.

use crate::redirects::Timestamp;
use vstd::prelude::*;

verus! {

/// Running totals. They wrap round at the end of their range.
#[derive(Clone, Copy, Debug)]
pub struct Counters {
    /// Answers in which an address was replaced.
    pub evaded_queries: u64,
    /// Addresses that were replaced.
    pub evaded_records: u64,
    /// Answers that were looked at.
    pub total_queries: u64,
    /// When an address was last replaced.
    pub last_evaded: Timestamp,
    /// UDP queries dropped at the limit.
    pub dropped_udp: u64,
    /// TCP connections dropped at the limit.
    pub dropped_tcp: u64,
    /// UDP queries that got no answer.
    pub upstream_failures_udp: u64,
    /// TCP queries that got no answer.
    pub upstream_failures_tcp: u64,
    /// When the lists were last loaded.
    pub last_reload: Timestamp,
}

/// The totals that outlive the process.
#[derive(Clone, Copy, Debug)]
pub struct StatsFile {
    pub evaded_queries_total: u64,
    pub evaded_records_total: u64,
    pub total_queries_processed: u64,
    pub last_evasion_timestamp: Timestamp,
    pub last_updated: Timestamp,
}

/// A count after `by` more, from the greatest number back to zero.
pub open spec fn bumped(count: u64, by: int) -> u64 {
    ((count + by) % 0x1_0000_0000_0000_0000) as u64
}

impl Counters {
    /// All totals at zero.
    pub open spec fn zero() -> Counters {
        Counters {
            evaded_queries: 0,
            evaded_records: 0,
            total_queries: 0,
            last_evaded: Timestamp { bits: 0 },
            dropped_udp: 0,
            dropped_tcp: 0,
            upstream_failures_udp: 0,
            upstream_failures_tcp: 0,
            last_reload: Timestamp { bits: 0 },
        }
    }

    /// The totals after one more answer was looked at.
    pub open spec fn seen(self) -> Counters {
        Counters { total_queries: bumped(self.total_queries, 1), ..self }
    }

    /// The totals after `count` addresses of one answer were replaced.
    pub open spec fn evaded(self, count: int, now: Timestamp) -> Counters {
        Counters {
            evaded_queries: bumped(self.evaded_queries, 1),
            evaded_records: bumped(self.evaded_records, count),
            last_evaded: now,
            ..self
        }
    }

    /// The totals after an answer with `count` replaced addresses: one without
    /// any is no evasion.
    pub open spec fn noted(self, count: int, now: Timestamp) -> Counters {
        if count > 0 {
            self.evaded(count, now)
        } else {
            self
        }
    }

    /// The totals after one more UDP query was dropped.
    pub open spec fn udp_dropped(self) -> Counters {
        Counters { dropped_udp: bumped(self.dropped_udp, 1), ..self }
    }

    /// The totals after one more TCP connection was dropped.
    pub open spec fn tcp_dropped(self) -> Counters {
        Counters { dropped_tcp: bumped(self.dropped_tcp, 1), ..self }
    }

    /// Takes up the totals that an earlier run left.
    pub fn load(stats: &StatsFile) -> (counters: Counters)
        ensures
            counters == (Counters {
                evaded_queries: stats.evaded_queries_total,
                evaded_records: stats.evaded_records_total,
                total_queries: stats.total_queries_processed,
                last_evaded: stats.last_evasion_timestamp,
                ..Counters::zero()
            }),
    {
        let mut counters: Counters = Counters::default();
        counters.evaded_queries = stats.evaded_queries_total;
        counters.evaded_records = stats.evaded_records_total;
        counters.total_queries = stats.total_queries_processed;
        counters.last_evaded = stats.last_evasion_timestamp;
        counters
    }

    /// The totals to leave for a later run.
    pub fn snapshot(&self, now: Timestamp) -> (stats: StatsFile)
        ensures
            stats == (StatsFile {
                evaded_queries_total: self.evaded_queries,
                evaded_records_total: self.evaded_records,
                total_queries_processed: self.total_queries,
                last_evasion_timestamp: self.last_evaded,
                last_updated: now,
            }),
    {
        StatsFile {
            evaded_queries_total: self.evaded_queries,
            evaded_records_total: self.evaded_records,
            total_queries_processed: self.total_queries,
            last_evasion_timestamp: self.last_evaded,
            last_updated: now,
        }
    }

    /// Counts an answer that was looked at.
    pub fn record_seen(&mut self)
        ensures
            *final(self) == old(self).seen(),
    {
        self.total_queries = self.total_queries.wrapping_add(1);
    }

    /// Counts `count` replaced addresses of one answer.
    pub fn record_evaded(&mut self, count: usize, now: Timestamp)
        ensures
            *final(self) == old(self).evaded(count as int, now),
    {
        self.evaded_queries = self.evaded_queries.wrapping_add(1);
        self.evaded_records = self.evaded_records.wrapping_add(count as u64);
        self.last_evaded = now;
    }

    /// Counts a UDP query dropped at the limit.
    pub fn record_dropped_udp(&mut self)
        ensures
            *final(self) == old(self).udp_dropped(),
    {
        self.dropped_udp = self.dropped_udp.wrapping_add(1);
    }

    /// Counts a TCP connection dropped at the limit.
    pub fn record_dropped_tcp(&mut self)
        ensures
            *final(self) == old(self).tcp_dropped(),
    {
        self.dropped_tcp = self.dropped_tcp.wrapping_add(1);
    }

    /// Counts a UDP query that got no answer.
    pub fn record_failure_udp(&mut self)
        ensures
            *final(self) == (Counters {
                upstream_failures_udp: bumped(old(self).upstream_failures_udp, 1),
                ..*old(self)
            }),
    {
        self.upstream_failures_udp = self.upstream_failures_udp.wrapping_add(1);
    }

    /// Counts a TCP query that got no answer.
    pub fn record_failure_tcp(&mut self)
        ensures
            *final(self) == (Counters {
                upstream_failures_tcp: bumped(old(self).upstream_failures_tcp, 1),
                ..*old(self)
            }),
    {
        self.upstream_failures_tcp = self.upstream_failures_tcp.wrapping_add(1);
    }
}

impl Default for Counters {
    fn default() -> (counters: Counters)
        ensures
            counters == Counters::zero(),
    {
        Counters {
            evaded_queries: 0,
            evaded_records: 0,
            total_queries: 0,
            last_evaded: Timestamp { bits: 0 },
            dropped_udp: 0,
            dropped_tcp: 0,
            upstream_failures_udp: 0,
            upstream_failures_tcp: 0,
            last_reload: Timestamp { bits: 0 },
        }
    }
}

} // verus!
