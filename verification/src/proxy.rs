//! The state of the proxy, and what it does to each upstream answer.

use crate::bytes;
use crate::bytes::{be16, overwrite_at, write_be};
use crate::counters::{Counters, StatsFile};
use crate::effects;
use crate::evasion::Data;
use crate::limits;
use crate::limits::{try_acquire, Limits};
use crate::redirects::{Redirects, TestRedirect, Timestamp};
use crate::rewrite;
use crate::rewrite::{clear_ad, rewrite_records};
use crate::slots::{TYPE_AAAA, TYPE_HTTPS, TYPE_OPT, TYPE_SVCB};
use crate::wire;
use crate::wire::{question_name, resource_records, skip_name, Record, HEADER};
use std::sync::Arc;
use tokio::sync::OwnedSemaphorePermit;
use vstd::prelude::*;
use vstd::slice::slice_subrange;

verus! {

/// The lists, the redirects and the counters.
pub struct App {
    pub data: Arc<Data>,
    pub counters: Counters,
    /// Seconds that a rewritten answer may be kept.
    pub rewrite_ttl: u32,
    /// Redirects from the command line.
    pub test_redirects: Redirects,
    /// Redirects that the probe sets for a while.
    pub temporary_redirects: Redirects,
    pub limits: Limits,
}

/// The redirect in force for the name that the message asks for. One from the
/// command line hides a temporary one, even when it has expired.
pub open spec fn active(
    test: Map<Seq<char>, TestRedirect>,
    temporary: Map<Seq<char>, TestRedirect>,
    packet: Seq<u8>,
    now: Timestamp,
) -> Option<TestRedirect> {
    match wire::asked_name(packet) {
        None => None,
        Some(name) => {
            let found = if test.contains_key(name) {
                Some(test[name])
            } else {
                temporary.get(name)
            };
            match found {
                Some(redirect) => if redirect.live(now) {
                    Some(redirect)
                } else {
                    None
                },
                None => None,
            }
        },
    }
}

/// Where the first question ends.
pub open spec fn question_end(packet: Seq<u8>) -> int {
    wire::name_end(packet, HEADER as int)->0 + 4
}

/// Whether the message is a successful answer of the kind that carries IPv6
/// addresses or hints, to a question whose name is pinned to IPv4 alone.
pub open spec fn bypasses(packet: Seq<u8>, redirect: Option<TestRedirect>) -> bool {
    &&& redirect matches Some(redirect)
    &&& redirect.v4 is Some
    &&& redirect.v6 is None
    &&& wire::name_end(packet, HEADER as int) is Some
    &&& question_end(packet) <= packet.len()
    &&& asks_beyond_v4(bytes::be_field(packet, question_end(packet) - 4, 2))
    &&& packet[3] % 16 == 0
    &&& bytes::be_field(packet, 6, 2) > 0
    &&& wire::records_of(packet) is Some
}

/// Whether a question of this type can be answered with more than IPv4.
pub open spec fn asks_beyond_v4(kind: nat) -> bool {
    kind == TYPE_AAAA || kind == TYPE_SVCB || kind == TYPE_HTTPS
}

/// The bytes of the OPT records.
pub open spec fn opt_bytes(packet: Seq<u8>, records: Seq<Record>) -> Seq<u8>
    decreases records.len(),
{
    if records.len() == 0 {
        Seq::empty()
    } else {
        let before = opt_bytes(packet, records.drop_last());
        let record = records.last();
        if record.kind == TYPE_OPT {
            before + packet.subrange(record.start as int, record.end())
        } else {
            before
        }
    }
}

/// How many OPT records there are.
pub open spec fn opt_count(records: Seq<Record>) -> nat
    decreases records.len(),
{
    if records.len() == 0 {
        0
    } else {
        opt_count(records.drop_last()) + (if records.last().kind == TYPE_OPT {
            1nat
        } else {
            0nat
        })
    }
}

/// The message without its records but for the OPT ones, which then are the
/// additional section: no answer, and no claim of validated data.
pub open spec fn emptied(packet: Seq<u8>) -> Seq<u8> {
    let records = wire::records_of(packet)->0;
    let kept = packet.take(question_end(packet)) + opt_bytes(packet, records);
    bytes::overwrite(
        kept.update(3, rewrite::without_ad(kept[3])),
        6,
        bytes::be_bytes(0, 4) + bytes::be_bytes(opt_count(records) % 0x1_0000, 2),
    )
}

/// Builds the message without its records but for the OPT ones.
fn empty_message(packet: &[u8], question: usize, records: &Vec<Record>) -> (out: Vec<u8>)
    requires
        wire::records_of(packet@) == Some(records@),
        HEADER <= question <= packet@.len(),
        question == question_end(packet@),
    ensures
        out@ == emptied(packet@),
{
    let len: usize = packet.len();
    proof {
        wire::lemma_records_laid_out(packet@);
    }
    let ghost kept = packet@.take(question as int);
    let mut out: Vec<u8> = Vec::new();
    out.extend_from_slice(slice_subrange(packet, 0, question));
    assert(out@ =~= kept);
    let mut additional: u16 = 0;
    let mut at: usize = 0;
    assert(records@.take(0) == Seq::<Record>::empty());
    assert(out@ =~= kept + opt_bytes(packet@, records@.take(0)));
    while at < records.len()
        invariant
            at <= records@.len(),
            len == packet@.len(),
            wire::laid_out(records@, HEADER as int, packet@.len() as int),
            out@ == kept + opt_bytes(packet@, records@.take(at as int)),
            additional == opt_count(records@.take(at as int)) % 0x1_0000,
        decreases records@.len() - at,
    {
        let record: Record = records[at];
        let ghost before = out@;
        proof {
            assert(records@.take(at + 1).drop_last() == records@.take(at as int));
        }
        if record.kind == TYPE_OPT {
            let bytes: &[u8] = slice_subrange(packet, record.start, record.rdata + record.rdlen);
            out.extend_from_slice(bytes);
            additional = additional.wrapping_add(1);
            assert(out@ =~= before + packet@.subrange(record.start as int, record.end()));
        }
        at = at + 1;
        assert(out@ =~= kept + opt_bytes(packet@, records@.take(at as int)));
    }
    assert(records@.take(records@.len() as int) == records@);
    let flags: u8 = out[3];
    out.set(3, clear_ad(flags));
    let mut counts: Vec<u8> = write_be(0, 4);
    let mut last: Vec<u8> = write_be(additional as u128, 2);
    counts.append(&mut last);
    overwrite_at(&mut out, 6, &counts);
    out
}

impl App {
    pub open spec fn wf(self) -> bool {
        &&& self.data.wf()
        &&& self.test_redirects.wf()
        &&& self.temporary_redirects.wf()
    }

    /// The lists.
    pub open spec fn lists(self) -> Data {
        *self.data
    }

    /// The redirect in force for a message.
    pub open spec fn redirect(self, packet: Seq<u8>, now: Timestamp) -> Option<TestRedirect> {
        active(self.test_redirects@, self.temporary_redirects@, packet, now)
    }

    /// Starts with the lists and redirects that were loaded and the totals that
    /// an earlier run left.
    pub fn new(
        data: Data,
        stats: &StatsFile,
        rewrite_ttl: u32,
        test_redirects: Redirects,
        temporary_redirects: Redirects,
        limits: Limits,
        now: Timestamp,
    ) -> (app: App)
        requires
            data.wf(),
            test_redirects.wf(),
            temporary_redirects.wf(),
        ensures
            app.wf(),
            *app.data == data,
            app.counters == (Counters {
                evaded_queries: stats.evaded_queries_total,
                evaded_records: stats.evaded_records_total,
                total_queries: stats.total_queries_processed,
                last_evaded: stats.last_evasion_timestamp,
                last_reload: now,
                ..Counters::zero()
            }),
            app.rewrite_ttl == rewrite_ttl,
            app.test_redirects == test_redirects,
            app.temporary_redirects == temporary_redirects,
            app.limits == limits,
    {
        let mut counters: Counters = Counters::load(stats);
        counters.last_reload = now;
        App {
            data: Arc::new(data),
            counters,
            rewrite_ttl,
            test_redirects,
            temporary_redirects,
            limits,
        }
    }

    /// Whether all but the counters is the same.
    pub open spec fn same_setup(self, other: App) -> bool {
        &&& self.data == other.data
        &&& self.rewrite_ttl == other.rewrite_ttl
        &&& self.test_redirects == other.test_redirects
        &&& self.temporary_redirects == other.temporary_redirects
        &&& self.limits == other.limits
    }

    /// How many addresses rewriting changes.
    pub open spec fn changed(self, packet: Seq<u8>, now: Timestamp) -> nat {
        match wire::records_of(packet) {
            None => 0,
            Some(records) => rewrite::message_changes(
                packet,
                records,
                self.lists(),
                self.redirect(packet, now),
            ).len(),
        }
    }

    /// A message after rewriting; a malformed one stays as it is.
    pub open spec fn rewritten(self, packet: Seq<u8>, now: Timestamp) -> Seq<u8> {
        match wire::records_of(packet) {
            None => packet,
            Some(records) => rewrite::rewritten(
                packet,
                records,
                self.lists(),
                self.redirect(packet, now),
                self.rewrite_ttl,
            ),
        }
    }

    /// How many answers are taken out or addresses are changed.
    pub open spec fn processed_count(self, packet: Seq<u8>, now: Timestamp) -> nat {
        if bypasses(packet, self.redirect(packet, now)) {
            bytes::be_field(packet, 6, 2)
        } else {
            self.changed(packet, now)
        }
    }

    /// What the client gets for an answer of the upstream resolver.
    pub open spec fn processed(self, packet: Seq<u8>, now: Timestamp) -> Seq<u8> {
        if bypasses(packet, self.redirect(packet, now)) {
            emptied(packet)
        } else {
            self.rewritten(packet, now)
        }
    }

    /// Admits a UDP query: gives the permit that it holds while it waits. At the
    /// limit there is none; the query is dropped, and counted as such.
    pub fn admit_udp(&mut self) -> (permit: Option<OwnedSemaphorePermit>)
        requires
            old(self).wf(),
        ensures
            final(self).wf(),
            final(self).same_setup(*old(self)),
            permit matches Some(permit) ==> limits::semaphore_of(permit) == *old(
                self,
            ).limits.udp,
            permit is None ==> limits::refused(*old(self).limits.udp),
            final(self).counters == (if permit is Some {
                old(self).counters
            } else {
                old(self).counters.udp_dropped()
            }),
    {
        let permit: Option<OwnedSemaphorePermit> = try_acquire(&self.limits.udp);
        self.settle_udp(permit)
    }

    /// Settles a UDP query that got `permit`: hands it on, or counts the query
    /// as dropped where there is none.
    pub fn settle_udp(&mut self, permit: Option<OwnedSemaphorePermit>) -> (out: Option<
        OwnedSemaphorePermit,
    >)
        requires
            old(self).wf(),
        ensures
            final(self).wf(),
            final(self).same_setup(*old(self)),
            out == permit,
            final(self).counters == (if permit is Some {
                old(self).counters
            } else {
                old(self).counters.udp_dropped()
            }),
    {
        if permit.is_none() {
            self.counters.record_dropped_udp();
        }
        permit
    }

    /// Admits a TCP connection: gives the permit that it holds while it is open.
    /// At the limit there is none; the connection is dropped, and counted as such.
    pub fn admit_tcp(&mut self) -> (permit: Option<OwnedSemaphorePermit>)
        requires
            old(self).wf(),
        ensures
            final(self).wf(),
            final(self).same_setup(*old(self)),
            permit matches Some(permit) ==> limits::semaphore_of(permit) == *old(
                self,
            ).limits.tcp,
            permit is None ==> limits::refused(*old(self).limits.tcp),
            final(self).counters == (if permit is Some {
                old(self).counters
            } else {
                old(self).counters.tcp_dropped()
            }),
    {
        let permit: Option<OwnedSemaphorePermit> = try_acquire(&self.limits.tcp);
        self.settle_tcp(permit)
    }

    /// Settles a TCP connection that got `permit`: hands it on, or counts the connection
    /// as dropped where there is none.
    pub fn settle_tcp(&mut self, permit: Option<OwnedSemaphorePermit>) -> (out: Option<
        OwnedSemaphorePermit,
    >)
        requires
            old(self).wf(),
        ensures
            final(self).wf(),
            final(self).same_setup(*old(self)),
            out == permit,
            final(self).counters == (if permit is Some {
                old(self).counters
            } else {
                old(self).counters.tcp_dropped()
            }),
    {
        if permit.is_none() {
            self.counters.record_dropped_tcp();
        }
        permit
    }

    /// Finds the redirect in force for the name that the message asks for.
    pub fn active_redirect(&self, packet: &[u8], now: Timestamp) -> (redirect: Option<
        TestRedirect,
    >)
        requires
            self.wf(),
        ensures
            redirect == self.redirect(packet@, now),
    {
        // Decoding the name allocates: only where there is a rule at all.
        if self.test_redirects.is_empty() && self.temporary_redirects.is_empty() {
            return None;
        }
        let name: String = match question_name(packet) {
            Some(name) => name,
            None => {
                return None;
            },
        };
        let found: Option<TestRedirect> = match self.test_redirects.get(&name) {
            Some(redirect) => Some(redirect),
            None => self.temporary_redirects.get(&name),
        };
        match found {
            Some(redirect) => if redirect.is_live(now) {
                Some(redirect)
            } else {
                None
            },
            None => None,
        }
    }

    /// Answers AAAA, HTTPS and SVCB questions with an empty success while a
    /// redirect pins only an IPv4 address: a client would else take the untested
    /// IPv6 path past it. The OPT records stay. Gives the number of answers that
    /// were taken out; `None` where the message is not of that kind and stays.
    pub fn suppress_unverified_family(&mut self, packet: &mut Vec<u8>, now: Timestamp) -> (removed:
        Option<usize>)
        requires
            old(self).wf(),
        ensures
            final(self).wf(),
            final(self).same_setup(*old(self)),
            ({
                let answers = bytes::be_field(old(packet)@, 6, 2) as int;
                if bypasses(old(packet)@, old(self).redirect(old(packet)@, now)) {
                    &&& removed matches Some(count) && count == answers
                    &&& final(packet)@ == emptied(old(packet)@)
                    &&& final(self).counters == old(self).counters.seen().evaded(answers, now)
                } else {
                    &&& removed is None
                    &&& final(packet)@ == old(packet)@
                    &&& final(self).counters == old(self).counters
                }
            }),
    {
        let len: usize = packet.len();
        let redirect: TestRedirect = match self.active_redirect(packet.as_slice(), now) {
            Some(redirect) => redirect,
            None => {
                return None;
            },
        };
        if redirect.v4.is_none() || redirect.v6.is_some() {
            return None;
        }
        let name_end: usize = match skip_name(packet.as_slice(), HEADER) {
            Some(end) => end,
            None => {
                return None;
            },
        };
        proof {
            wire::lemma_name_end_bounds(packet@, HEADER as int);
        }
        if len - name_end < 4 {
            return None;
        }
        let question_end: usize = name_end + 4;
        let (qtype, answers): (u16, u16) = match (
            be16(packet.as_slice(), name_end),
            be16(packet.as_slice(), 6),
        ) {
            (Some(qtype), Some(answers)) => (qtype, answers),
            _ => {
                return None;
            },
        };
        let asked: bool = qtype == TYPE_AAAA || qtype == TYPE_SVCB || qtype == TYPE_HTTPS;
        if !asked || packet[3] % 16 != 0 || answers == 0 {
            return None;
        }
        let records: Vec<Record> = match resource_records(packet.as_slice()) {
            Some(records) => records,
            None => {
                return None;
            },
        };
        *packet = empty_message(packet.as_slice(), question_end, &records);
        self.counters.record_seen();
        self.counters.record_evaded(answers as usize, now);
        Some(answers as usize)
    }

    /// Rewrites a message in place; gives the number of addresses that changed.
    /// A malformed message stays as it is.
    pub fn rewrite(&mut self, packet: &mut Vec<u8>, now: Timestamp) -> (count: usize)
        requires
            old(self).wf(),
        ensures
            final(self).wf(),
            final(self).same_setup(*old(self)),
            count == old(self).changed(old(packet)@, now),
            final(packet)@ == old(self).rewritten(old(packet)@, now),
            final(self).counters == old(self).counters.seen().noted(count as int, now),
    {
        self.counters.record_seen();
        let redirect: Option<TestRedirect> = self.active_redirect(packet.as_slice(), now);
        let records: Vec<Record> = match resource_records(packet.as_slice()) {
            Some(records) => records,
            None => {
                return 0;
            },
        };
        let count: usize = rewrite_records(
            packet,
            &records,
            &self.data,
            redirect,
            self.rewrite_ttl,
        );
        if count > 0 {
            self.counters.record_evaded(count, now);
        }
        count
    }

    /// What becomes of every answer of the upstream resolver: one that would lead
    /// past an IPv4 redirect is emptied, any other is rewritten in place. Gives
    /// the number of answers taken out or of addresses that changed.
    pub fn process(&mut self, packet: &mut Vec<u8>, now: Timestamp) -> (count: usize)
        requires
            old(self).wf(),
        ensures
            final(self).wf(),
            final(self).same_setup(*old(self)),
            count == old(self).processed_count(old(packet)@, now),
            final(packet)@ == old(self).processed(old(packet)@, now),
            final(self).counters == old(self).counters.seen().noted(count as int, now),
    {
        match self.suppress_unverified_family(packet, now) {
            Some(removed) => removed,
            None => self.rewrite(packet, now),
        }
    }
}

/// A malformed message passes through as it came.
pub proof fn law_malformed_untouched(app: App, packet: Seq<u8>, now: Timestamp)
    requires
        wire::records_of(packet) is None,
    ensures
        app.processed(packet, now) == packet,
        app.processed_count(packet, now) == 0,
{
}

/// A redirect is in force only while it has not expired, and only for a message
/// that asks for its very name.
pub proof fn law_redirect_in_force(app: App, packet: Seq<u8>, now: Timestamp)
    requires
        app.redirect(packet, now) is Some,
    ensures
        app.redirect(packet, now)->0.live(now),
        ({
            let name = wire::asked_name(packet);
            &&& name is Some
            &&& app.test_redirects@.contains_key(name->0) || app.temporary_redirects@.contains_key(
                name->0,
            )
        }),
{
}

/// While a redirect pins IPv4 alone, no AAAA, HTTPS or SVCB question about its
/// name gets an answer out of a success: what the client gets announces none.
pub proof fn law_no_way_past_v4_redirect(app: App, packet: Seq<u8>, now: Timestamp)
    requires
        packet.len() <= usize::MAX,
        app.redirect(packet, now) matches Some(redirect) && redirect.v4 is Some && redirect.v6
            is None,
        wire::records_of(packet) is Some,
        wire::name_end(packet, HEADER as int) is Some,
        question_end(packet) <= packet.len(),
        asks_beyond_v4(bytes::be_field(packet, question_end(packet) - 4, 2)),
        packet[3] % 16 == 0,
    ensures
        bytes::be_field(app.processed(packet, now), 6, 2) == 0,
{
    let redirect = app.redirect(packet, now);
    if bypasses(packet, redirect) {
        law_emptied_answers_nothing(packet, redirect);
    } else {
        effects::law_header_and_questions_stay(
            packet,
            app.lists(),
            redirect,
            app.rewrite_ttl,
        );
        bytes::lemma_field_agrees(app.processed(packet, now), packet, 6, 2);
    }
}

/// An emptied message answers the same question with nothing: it has no answer
/// and no authority records, the bytes up to the end of the question are the
/// same but for the counts and the claim of validated data, and behind it stand
/// the OPT records as they were.
pub proof fn law_emptied_answers_nothing(packet: Seq<u8>, redirect: Option<TestRedirect>)
    requires
        packet.len() <= usize::MAX,
        bypasses(packet, redirect),
    ensures
        bytes::be_field(emptied(packet), 6, 2) == 0,
        bytes::be_field(emptied(packet), 8, 2) == 0,
        bytes::be_field(emptied(packet), 10, 2) == opt_count(wire::records_of(packet)->0)
            % 0x1_0000,
        emptied(packet)[3] == rewrite::without_ad(packet[3]),
        forall|k: int|
            0 <= k < question_end(packet) && k != 3 && !(6 <= k < 12) ==> #[trigger] emptied(
                packet,
            )[k] == packet[k],
        question_end(packet) <= emptied(packet).len(),
        emptied(packet).skip(question_end(packet)) == opt_bytes(
            packet,
            wire::records_of(packet)->0,
        ),
{
    let records = wire::records_of(packet)->0;
    let out = emptied(packet);
    let kept = packet.take(question_end(packet)) + opt_bytes(packet, records);
    let last = opt_count(records) % 0x1_0000;
    let counts = bytes::be_bytes(0, 4) + bytes::be_bytes(last, 2);
    wire::lemma_name_end_bounds(packet, HEADER as int);
    bytes::lemma_pow256_values();
    bytes::lemma_be_bytes_len(0, 4);
    bytes::law_be_bytes_then_value(last, 2);
    reveal_with_fuel(bytes::be_bytes, 5);
    reveal_with_fuel(bytes::be_value, 3);
    assert(bytes::be_bytes(0, 4) =~= seq![0u8, 0u8, 0u8, 0u8]);
    assert(out.subrange(6, 8) =~= seq![0u8, 0u8]);
    assert(out.subrange(8, 10) =~= seq![0u8, 0u8]);
    assert(out.subrange(10, 12) =~= bytes::be_bytes(last, 2));
    assert(out.skip(question_end(packet)) =~= opt_bytes(packet, records));
}

proof fn lemma_opt_front(packet: Seq<u8>, records: Seq<Record>)
    requires
        records.len() > 0,
    ensures
        ({
            let rest = records.drop_first();
            let record = records[0];
            if record.kind == TYPE_OPT {
                &&& opt_bytes(packet, records) == packet.subrange(
                    record.start as int,
                    record.end(),
                ) + opt_bytes(packet, rest)
                &&& opt_count(records) == 1 + opt_count(rest)
            } else {
                &&& opt_bytes(packet, records) == opt_bytes(packet, rest)
                &&& opt_count(records) == opt_count(rest)
            }
        }),
    decreases records.len(),
{
    let rest = records.drop_first();
    let init = records.drop_last();
    if records.len() == 1 {
        assert(init == Seq::<Record>::empty());
        assert(rest == Seq::<Record>::empty());
        assert(opt_bytes(packet, records) =~= (if records[0].kind == TYPE_OPT {
            packet.subrange(records[0].start as int, records[0].end())
        } else {
            Seq::empty()
        }) + opt_bytes(packet, rest));
    } else {
        lemma_opt_front(packet, init);
        assert(init.drop_first() == rest.drop_last());
        assert(init[0] == records[0]);
        assert(rest.last() == records.last());
        assert(opt_bytes(packet, records) =~= (if records[0].kind == TYPE_OPT {
            packet.subrange(records[0].start as int, records[0].end())
        } else {
            Seq::empty()
        }) + opt_bytes(packet, rest));
    }
}

/// Whether the records are OPT records outside the answer section.
pub open spec fn only_options(records: Seq<Record>) -> bool {
    forall|i: int|
        0 <= i < records.len() ==> (#[trigger] records[i]).kind == TYPE_OPT && !records[i].answer
}

/// The OPT records among the records, in their order.
pub open spec fn options(records: Seq<Record>) -> Seq<Record> {
    records.filter(|record: Record| record.kind == 41)
}

pub proof fn lemma_options_count(records: Seq<Record>)
    ensures
        options(records).len() == opt_count(records),
    decreases records.len(),
{
    reveal(Seq::filter);
    if records.len() > 0 {
        lemma_options_count(records.drop_last());
    }
}

/// Whether each of the `copies` in `out` has the bytes of the record at its place
/// in the list.
pub open spec fn same_bytes(
    packet: Seq<u8>,
    records: Seq<Record>,
    out: Seq<u8>,
    copies: Seq<Record>,
) -> bool {
    &&& copies.len() == records.len()
    &&& forall|k: int|
        0 <= k < copies.len() ==> out.subrange((#[trigger] copies[k]).start as int, copies[k].end())
            == packet.subrange(records[k].start as int, records[k].end())
}

pub proof fn lemma_options_parse(
    packet: Seq<u8>,
    records: Seq<Record>,
    out: Seq<u8>,
    at: int,
    index: nat,
)
    requires
        packet.len() <= usize::MAX,
        out.len() <= usize::MAX,
        forall|i: int|
            0 <= i < records.len() ==> wire::record_at(
                packet,
                (#[trigger] records[i]).start as int,
                records[i].answer,
            ) == Some(records[i]),
        0 <= at <= out.len(),
        out.skip(at) == opt_bytes(packet, records),
    ensures
        ({
            let found = wire::records_from(out, at, index, 0, index + opt_count(records));
            &&& found is Some
            &&& found->0.len() == opt_count(records)
            &&& only_options(found->0)
            &&& same_bytes(packet, options(records), out, found->0)
        }),
    decreases records.len(),
{
    reveal(Seq::filter);
    if records.len() > 0 {
        let record = records[0];
        let rest = records.drop_first();
        let pred = |record: Record| record.kind == 41;
        assert(records == seq![record] + rest);
        Seq::filter_distributes_over_add(seq![record], rest, pred);
        assert(seq![record].drop_last() == Seq::<Record>::empty());
        assert(Seq::<Record>::empty().filter(pred) =~= Seq::<Record>::empty());
        assert(seq![record].last() == record);
        assert(seq![record].filter(pred) =~= (if record.kind == 41 {
            seq![record]
        } else {
            Seq::empty()
        }));
        lemma_opt_front(packet, records);
        assert forall|i: int| 0 <= i < rest.len() implies wire::record_at(
            packet,
            (#[trigger] rest[i]).start as int,
            rest[i].answer,
        ) == Some(rest[i]) by {
            assert(rest[i] == records[i + 1]);
        }
        assert(wire::record_at(packet, record.start as int, record.answer) == Some(record));
        if record.kind == TYPE_OPT {
            wire::lemma_name_end_bounds(packet, record.start as int);
            let size = record.end() - record.start;
            let mine = packet.subrange(record.start as int, record.end());
            let tail = opt_bytes(packet, rest);
            assert(out.skip(at).len() == (mine + tail).len());
            assert forall|k: int| record.start <= k < record.end() implies #[trigger] packet[k]
                == out[at + k - record.start] by {
                assert(out.skip(at)[k - record.start] == (mine + tail)[k - record.start]);
            }
            wire::lemma_record_moved(packet, record, out, at, false);
            assert(out.skip(at + size) =~= tail) by {
                assert forall|k: int| 0 <= k < tail.len() implies #[trigger] out.skip(at + size)[k]
                    == tail[k] by {
                    assert(out.skip(at)[size + k] == (mine + tail)[size + k]);
                }
            }
            lemma_options_parse(packet, rest, out, at + size, index + 1);
            let moved = wire::record_at(out, at, false)->0;
            let more = wire::records_from(
                out,
                at + size,
                index + 1,
                0,
                index + opt_count(records),
            );
            let found = wire::records_from(out, at, index, 0, index + opt_count(records));
            assert(found == Some(seq![moved] + more->0));
            assert forall|i: int| 0 <= i < found->0.len() implies (#[trigger] found->0[i]).kind
                == TYPE_OPT && !found->0[i].answer by {
                if i > 0 {
                    assert(found->0[i] == more->0[i - 1]);
                }
            }
            assert(same_bytes(packet, options(records), out, found->0)) by {
                let list = options(records);
                assert(list =~= seq![record] + options(rest));
                assert forall|k: int| 0 <= k < found->0.len() implies out.subrange(
                    (#[trigger] found->0[k]).start as int,
                    found->0[k].end(),
                ) == packet.subrange(list[k].start as int, list[k].end()) by {
                    if k > 0 {
                        assert(found->0[k] == more->0[k - 1]);
                        assert(list[k] == options(rest)[k - 1]);
                    } else {
                        assert(moved.end() == at + size);
                        assert(out.subrange(at, at + size) =~= mine) by {
                            assert forall|n: int| 0 <= n < size implies #[trigger] out.subrange(
                                at,
                                at + size,
                            )[n] == mine[n] by {
                                assert(packet[record.start + n] == out[at + n]);
                            }
                        }
                    }
                }
            }
        } else {
            assert(options(records) =~= options(rest));
            lemma_options_parse(packet, rest, out, at, index);
        }
    }
}

proof fn lemma_opt_bytes_len(packet: Seq<u8>, records: Seq<Record>, low: int, high: int)
    requires
        wire::laid_out(records, low, high),
        low <= high <= packet.len(),
    ensures
        opt_bytes(packet, records).len() <= high - low,
    decreases records.len(),
{
    if records.len() > 0 {
        let init = records.drop_last();
        let last = records[records.len() - 1];
        assert(wire::laid_out(init, low, last.start as int)) by {
            assert forall|i: int| 0 <= i < init.len() implies {
                &&& low <= (#[trigger] init[i]).start
                &&& init[i].start + 5 <= init[i].ttl
                &&& init[i].ttl + 6 == init[i].rdata
                &&& init[i].end() <= last.start
            } by {
                assert(init[i] == records[i]);
                assert(records[i].end() <= records[records.len() - 1].start);
            }
            assert forall|i: int, j: int| 0 <= i < j < init.len() implies (
            #[trigger] init[i]).end() <= (#[trigger] init[j]).start by {
                assert(init[i] == records[i] && init[j] == records[j]);
            }
        }
        lemma_opt_bytes_len(packet, init, low, last.start as int);
    }
}

/// An emptied message with one question is well formed, and its records are the
/// OPT records of the message that came, no more and no fewer.
pub proof fn law_emptied_keeps_options(packet: Seq<u8>, redirect: Option<TestRedirect>)
    requires
        packet.len() <= usize::MAX,
        bypasses(packet, redirect),
        bytes::be_field(packet, 4, 2) == 1,
        opt_count(wire::records_of(packet)->0) < 0x1_0000,
    ensures
        wire::records_of(emptied(packet)) is Some,
        wire::records_of(emptied(packet))->0.len() == opt_count(wire::records_of(packet)->0),
        only_options(wire::records_of(emptied(packet))->0),
        same_bytes(
            packet,
            options(wire::records_of(packet)->0),
            emptied(packet),
            wire::records_of(emptied(packet))->0,
        ),
        emptied(packet).len() <= packet.len(),
{
    let records = wire::records_of(packet)->0;
    let out = emptied(packet);
    let end = question_end(packet);
    law_emptied_answers_nothing(packet, redirect);
    wire::lemma_name_end_bounds(packet, HEADER as int);
    wire::lemma_name_end_moved(packet, HEADER as int, out, HEADER as int);
    bytes::lemma_field_agrees(out, packet, 4, 2);
    reveal_with_fuel(wire::questions_end, 2);
    assert(wire::questions_end(out, HEADER as int, 1) == Some(end));
    assert forall|i: int| 0 <= i < records.len() implies wire::record_at(
        packet,
        (#[trigger] records[i]).start as int,
        records[i].answer,
    ) == Some(records[i]) by {
        wire::lemma_record_found(packet, i);
    }
    assert(wire::questions_end(packet, HEADER as int, 1) == Some(end));
    wire::lemma_records_behind_questions(packet);
    lemma_opt_bytes_len(packet, records, end, packet.len() as int);
    lemma_options_parse(packet, records, out, end, 0);
}

} // verus!
