//! What holds of redirects, of time and of the counters.

use crate::counters::Counters;
use crate::proxy;
use crate::proxy::App;
use crate::redirects;
use crate::redirects::{TestRedirect, Timestamp};
use crate::text;
use crate::wire;
use vstd::prelude::*;
use vstd::utf8;

verus! {

/// Whether the bits stand for no number: all bits of the exponent are set, and one
/// of the fraction.
pub open spec fn no_number(time: Timestamp) -> bool {
    0x7ff0_0000_0000_0000 < time.bits < 0x8000_0000_0000_0000 || time.bits > 0xfff0_0000_0000_0000
}

/// Points in time are ordered as doubles are. Of two numbers, one is not after the
/// other or comes later; numbers without a sign are ordered by their bits, those
/// with a sign the other way round, and behind them come all others, but that the
/// two zeros are the same. What is no number is in no order.
pub proof fn law_time_is_ordered(a: Timestamp, b: Timestamp)
    ensures
        no_number(a) || no_number(b) ==> !a.not_after(b) && !a.later(b) && !a.equals(b),
        !no_number(a) && !no_number(b) ==> {
            &&& a.later(b) <==> !a.not_after(b)
            &&& a.equals(b) <==> a.not_after(b) && b.not_after(a)
            &&& a.bits < 0x8000_0000_0000_0000 && b.bits < 0x8000_0000_0000_0000 ==> (a.not_after(b)
                <==> a.bits <= b.bits)
            &&& a.bits >= 0x8000_0000_0000_0000 && b.bits >= 0x8000_0000_0000_0000
                ==> (a.not_after(b) <==> a.bits >= b.bits)
            &&& a.bits >= 0x8000_0000_0000_0000 && b.bits < 0x8000_0000_0000_0000 ==> a.not_after(b)
            &&& a.bits < 0x8000_0000_0000_0000 && b.bits >= 0x8000_0000_0000_0000 ==> (a.not_after(
                b,
            ) <==> a.bits == 0 && b.bits == 0x8000_0000_0000_0000)
        },
{
}

/// A redirect without an expiry is always in force. One with an expiry is in force
/// exactly while that lies ahead, and never again once it has ended.
pub proof fn law_redirects_end(redirect: TestRedirect, earlier: Timestamp, now: Timestamp)
    ensures
        redirect.expires_at is None ==> redirect.live(now),
        redirect.expires_at matches Some(expires) ==> (redirect.live(now) <==> !no_number(expires)
            && !no_number(now) && !expires.not_after(now)),
        earlier.not_after(now) && redirect.live(now) ==> redirect.live(earlier),
{
}

/// Which redirect is in force: the one that the command line gives for the asked
/// name, else the temporary one, provided that it has not ended. One from the
/// command line that has ended still hides a temporary one.
pub proof fn law_which_redirect_is_in_force(
    app: App,
    p: Seq<u8>,
    now: Timestamp,
    redirect: TestRedirect,
)
    ensures
        app.redirect(p, now) == Some(redirect) <==> {
            &&& wire::asked_name(p) is Some
            &&& redirect.live(now)
            &&& {
                let name = wire::asked_name(p)->0;
                ||| app.test_redirects@.contains_key(name) && app.test_redirects@[name] == redirect
                ||| !app.test_redirects@.contains_key(name) && app.temporary_redirects@.contains_key(
                    name,
                ) && app.temporary_redirects@[name] == redirect
            }
        },
{
}

/// Whether two redirects pin the same addresses, or there is none in either place.
pub open spec fn pin_alike(a: Option<TestRedirect>, b: Option<TestRedirect>) -> bool {
    match (a, b) {
        (Some(a), Some(b)) => a.v4 == b.v4 && a.v6 == b.v6,
        (None, None) => true,
        _ => false,
    }
}

/// Tables that are taken for the same are the same in what they do: they have the
/// same domains, and for each of these the same addresses and an expiry that is
/// the same number; so for every question and at every time they pin alike.
pub proof fn law_same_tables_do_the_same(
    test: Map<Seq<char>, TestRedirect>,
    a: Map<Seq<char>, TestRedirect>,
    b: Map<Seq<char>, TestRedirect>,
    name: Seq<char>,
    p: Seq<u8>,
    now: Timestamp,
)
    requires
        redirects::same_table(a, b),
    ensures
        a.contains_key(name) <==> b.contains_key(name),
        a.contains_key(name) ==> {
            &&& a[name].v4 == b[name].v4
            &&& a[name].v6 == b[name].v6
            &&& match (a[name].expires_at, b[name].expires_at) {
                (Some(x), Some(y)) => x.not_after(y) && y.not_after(x),
                (None, None) => true,
                _ => false,
            }
            &&& a[name].live(now) <==> b[name].live(now)
        },
        pin_alike(proxy::active(test, a, p, now), proxy::active(test, b, p, now)),
{
    assert(a.dom().contains(name) <==> b.dom().contains(name));
    if let Some(asked) = wire::asked_name(p) {
        assert(a.dom().contains(asked) <==> b.dom().contains(asked));
        if a.contains_key(asked) {
            assert(a[asked].equals(b[asked]));
        }
    }
}

/// Tables with the same domains, and for each of these the same addresses and the
/// same expiry, none of which is no number, are taken for the same.
pub proof fn law_unchanged_tables_are_the_same(table: Map<Seq<char>, TestRedirect>)
    requires
        forall|name: Seq<char>| #[trigger]
            table.contains_key(name) ==> (table[name].expires_at matches Some(expires)
                ==> !no_number(expires)),
    ensures
        redirects::same_table(table, table),
{
}

/// What is counted for an answer: one more that was looked at; and where addresses
/// changed, one more evaded query, as many evaded records as addresses changed, and
/// the time. Nothing else changes. Counts go round at two to the power of 64.
pub proof fn law_counted_for_an_answer(counters: Counters, count: nat, now: Timestamp)
    ensures
        ({
            let after = counters.seen().noted(count as int, now);
            let round = 0x1_0000_0000_0000_0000;
            &&& after.total_queries == (counters.total_queries + 1) % round
            &&& after.evaded_queries == (counters.evaded_queries + (if count > 0 {
                1int
            } else {
                0int
            })) % round
            &&& after.evaded_records == (counters.evaded_records + count) % round
            &&& after.last_evaded == (if count > 0 {
                now
            } else {
                counters.last_evaded
            })
            &&& after.dropped_udp == counters.dropped_udp
            &&& after.dropped_tcp == counters.dropped_tcp
            &&& after.upstream_failures_udp == counters.upstream_failures_udp
            &&& after.upstream_failures_tcp == counters.upstream_failures_tcp
            &&& after.last_reload == counters.last_reload
        }),
{
}

/// What is counted for a query that is dropped: one more of its transport, and
/// nothing else.
pub proof fn law_counted_for_a_drop(counters: Counters)
    ensures
        counters.udp_dropped() == (Counters {
            dropped_udp: ((counters.dropped_udp + 1) % 0x1_0000_0000_0000_0000) as u64,
            ..counters
        }),
        counters.tcp_dropped() == (Counters {
            dropped_tcp: ((counters.dropped_tcp + 1) % 0x1_0000_0000_0000_0000) as u64,
            ..counters
        }),
{
}

/// A fresh set of counters has counted nothing.
pub proof fn law_counting_starts_at_zero()
    ensures
        ({
            let zero = Counters::zero();
            &&& zero.total_queries == 0 && zero.evaded_queries == 0 && zero.evaded_records == 0
            &&& zero.dropped_udp == 0 && zero.dropped_tcp == 0
            &&& zero.upstream_failures_udp == 0 && zero.upstream_failures_tcp == 0
            &&& zero.last_evaded.bits == 0 && zero.last_reload.bits == 0
        }),
{
}

/// The bytes that spell a name: each label behind its length, and a zero byte.
pub open spec fn spelled(labels: Seq<Seq<u8>>) -> Seq<u8>
    decreases labels.len(),
{
    if labels.len() == 0 {
        seq![0u8]
    } else {
        seq![labels[0].len() as u8] + labels[0] + spelled(labels.drop_first())
    }
}

/// Whether the texts can be labels of a name: one to 63 bytes of UTF-8.
pub open spec fn are_labels(labels: Seq<Seq<u8>>) -> bool {
    forall|i: int|
        0 <= i < labels.len() ==> 1 <= (#[trigger] labels[i]).len() <= 63 && utf8::valid_utf8(
            labels[i],
        )
}

/// The labels as text, in lower case.
pub open spec fn label_texts(labels: Seq<Seq<u8>>) -> Seq<Seq<char>> {
    Seq::new(labels.len(), |i: int| text::lowered(utf8::decode_utf8(labels[i])))
}

proof fn lemma_spelled_labels(p: Seq<u8>, pos: int, jumps: nat, labels: Seq<Seq<u8>>)
    requires
        are_labels(labels),
        0 <= pos,
        pos + spelled(labels).len() <= p.len(),
        p.subrange(pos, pos + spelled(labels).len()) == spelled(labels),
    ensures
        wire::name_labels(p, pos, jumps) == Some(label_texts(labels)),
    decreases labels.len(),
{
    let all = spelled(labels);
    let taken = p.subrange(pos, pos + all.len());
    if labels.len() == 0 {
        assert(taken[0] == p[pos]);
        assert(label_texts(labels) =~= Seq::<Seq<char>>::empty());
    } else {
        let first = labels[0];
        let rest = labels.drop_first();
        let next = pos + 1 + first.len();
        assert(taken[0] == p[pos]);
        assert(p[pos] == first.len());
        assert(p.subrange(pos + 1, next) =~= first) by {
            assert forall|k: int| 0 <= k < first.len() implies #[trigger] p.subrange(
                pos + 1,
                next,
            )[k] == first[k] by {
                assert(taken[1 + k] == all[1 + k]);
            }
        }
        assert(p.subrange(next, next + spelled(rest).len()) =~= spelled(rest)) by {
            assert forall|k: int| 0 <= k < spelled(rest).len() implies #[trigger] p.subrange(
                next,
                next + spelled(rest).len(),
            )[k] == spelled(rest)[k] by {
                assert(taken[1 + first.len() + k] == all[1 + first.len() + k]);
            }
        }
        assert forall|i: int| 0 <= i < rest.len() implies 1 <= (#[trigger] rest[i]).len() <= 63
            && utf8::valid_utf8(rest[i]) by {
            assert(rest[i] == labels[i + 1]);
        }
        lemma_spelled_labels(p, next, jumps, rest);
        assert(label_texts(labels) =~= seq![text::lowered(utf8::decode_utf8(first))] + label_texts(
            rest,
        ));
    }
}

proof fn lemma_dotted(labels: Seq<Seq<char>>)
    ensures
        wire::dotted(labels) == text::joined(labels, '.'),
    decreases labels.len(),
{
    if labels.len() > 1 {
        lemma_dotted(labels.drop_last());
    }
}

/// A message asks for the name that its first question spells: its labels in lower
/// case with dots between them. Without a question it asks for none.
pub proof fn law_asked_name_is_what_is_spelled(p: Seq<u8>, labels: Seq<Seq<u8>>)
    requires
        are_labels(labels),
        12 + spelled(labels).len() <= p.len(),
        p.subrange(12, 12 + spelled(labels).len() as int) == spelled(labels),
    ensures
        p[4] == 0 && p[5] == 0 ==> wire::asked_name(p) is None,
        p[4] != 0 || p[5] != 0 ==> wire::asked_name(p) == Some(
            text::joined(label_texts(labels), '.'),
        ),
{
    crate::layout::law_two_bytes(p, 4);
    lemma_spelled_labels(p, 12, 0, labels);
    lemma_dotted(label_texts(labels));
    reveal_with_fuel(spelled, 2);
}

/// How a name is read on from a byte. A pointer, of which at most 128 are followed,
/// leads to the place that its low fourteen bits give; a zero byte ends the name; a
/// label of one to 63 bytes has to lie in the message and to be UTF-8.
pub proof fn law_names_are_read_on(p: Seq<u8>, pos: int, jumps: nat)
    ensures
        pos < 0 || pos >= p.len() ==> wire::name_labels(p, pos, jumps) is None,
        0 <= pos < p.len() ==> {
            let next = pos + 1 + p[pos];
            &&& p[pos] == 0 ==> wire::name_labels(p, pos, jumps) == Some(Seq::<Seq<char>>::empty())
            &&& 64 <= p[pos] < 192 ==> wire::name_labels(p, pos, jumps) is None
            &&& p[pos] >= 192 && (pos + 1 == p.len() || jumps >= 128) ==> wire::name_labels(
                p,
                pos,
                jumps,
            ) is None
            &&& p[pos] >= 192 && pos + 1 < p.len() && jumps < 128 ==> wire::name_labels(
                p,
                pos,
                jumps,
            ) == wire::name_labels(p, (p[pos] * 256 + p[pos + 1]) % 16384, jumps + 1)
            &&& 1 <= p[pos] <= 63 && next > p.len() ==> wire::name_labels(p, pos, jumps) is None
            &&& 1 <= p[pos] <= 63 && next <= p.len() ==> match wire::name_labels(p, next, jumps) {
                None => wire::name_labels(p, pos, jumps) is None,
                Some(rest) => if utf8::valid_utf8(p.subrange(pos + 1, next)) {
                    wire::name_labels(p, pos, jumps) == Some(
                        seq![text::lowered(utf8::decode_utf8(p.subrange(pos + 1, next)))] + rest,
                    )
                } else {
                    wire::name_labels(p, pos, jumps) is None
                },
            }
        },
{
}

} // verus!
