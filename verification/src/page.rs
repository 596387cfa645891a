//! What holds of the metrics page.

use crate::counters::StatsFile;
use crate::metrics;
use crate::metrics::{Figures, Pair};
use crate::proxy::App;
use crate::text;
use vstd::prelude::*;

verus! {

/// Whether `block` stands in the page, from the start of a line on.
#[verifier::opaque]
pub open spec fn shows(page: Seq<char>, block: Seq<char>) -> bool {
    exists|before: Seq<char>, after: Seq<char>| stands_between(page, before, block, after)
}

/// Whether the page is `block` with `before` in front, which ends a line, and `after`
/// behind it.
pub open spec fn stands_between(
    page: Seq<char>,
    before: Seq<char>,
    block: Seq<char>,
    after: Seq<char>,
) -> bool {
    page == before + block + after && (before.len() == 0 || before[before.len() - 1] == '\n')
}

/// The two lines that tell what a metric is.
pub open spec fn introduction(name: Seq<char>, kind: Seq<char>, help: Seq<char>) -> Seq<char> {
    "# HELP "@ + name + " "@ + help + "\n"@ + "# TYPE "@ + name + " "@ + kind + "\n"@
}

/// The line of one number.
pub open spec fn line(name: Seq<char>, labels: Seq<char>, value: Seq<char>) -> Seq<char> {
    name + labels + " "@ + value + "\n"@
}

proof fn lemma_introduction(name: Seq<char>, kind: Seq<char>, help: Seq<char>)
    ensures
        metrics::preamble(name, kind, help) == introduction(name, kind, help),
{
    reveal_strlit("\n# TYPE ");
    reveal_strlit("\n");
    reveal_strlit("# TYPE ");
    assert("\n# TYPE "@ =~= "\n"@ + "# TYPE "@);
    assert(metrics::preamble(name, kind, help) =~= introduction(name, kind, help));
}

/// What the page says of a metric with one number.
#[verifier::opaque]
pub open spec fn one_number(
    name: Seq<char>,
    kind: Seq<char>,
    help: Seq<char>,
    value: Seq<char>,
) -> Seq<char> {
    introduction(name, kind, help) + line(name, Seq::empty(), value)
}

/// What the page says of a metric with two numbers, each with its label.
#[verifier::opaque]
pub open spec fn two_numbers(
    name: Seq<char>,
    kind: Seq<char>,
    help: Seq<char>,
    first: (Seq<char>, Seq<char>),
    second: (Seq<char>, Seq<char>),
) -> Seq<char> {
    introduction(name, kind, help) + line(name, first.0, first.1) + line(name, second.0, second.1)
}

proof fn lemma_single(name: Seq<char>, kind: Seq<char>, help: Seq<char>, value: Seq<char>)
    ensures
        metrics::single(name, kind, help, value) == one_number(name, kind, help, value),
{
    lemma_introduction(name, kind, help);
    reveal(one_number);
    reveal_strlit("");
    assert(""@ =~= Seq::<char>::empty());
}

proof fn lemma_double(
    name: Seq<char>,
    kind: Seq<char>,
    help: Seq<char>,
    labels: (Seq<char>, Seq<char>),
    pair: Pair,
)
    ensures
        metrics::double(name, kind, help, labels, pair) == two_numbers(
            name,
            kind,
            help,
            (labels.0, text::decimal(pair.first as nat)),
            (labels.1, text::decimal(pair.second as nat)),
        ),
{
    lemma_introduction(name, kind, help);
    reveal(two_numbers);
}

proof fn lemma_one_ends_line(name: Seq<char>, kind: Seq<char>, help: Seq<char>, value: Seq<char>)
    ensures
        ends_line(one_number(name, kind, help, value)),
{
    reveal(one_number);
    reveal_strlit("\n");
}

proof fn lemma_two_end_line(
    name: Seq<char>,
    kind: Seq<char>,
    help: Seq<char>,
    first: (Seq<char>, Seq<char>),
    second: (Seq<char>, Seq<char>),
)
    ensures
        ends_line(two_numbers(name, kind, help, first, second)),
{
    reveal(two_numbers);
    reveal_strlit("\n");
}

spec fn ends_line(block: Seq<char>) -> bool {
    block.len() > 0 && block[block.len() - 1] == '\n'
}

/// The blocks, one behind the other.
spec fn in_a_row(blocks: Seq<Seq<char>>) -> Seq<char>
    decreases blocks.len(),
{
    if blocks.len() == 0 {
        Seq::empty()
    } else {
        in_a_row(blocks.drop_last()) + blocks.last()
    }
}

proof fn lemma_row_ends_line(blocks: Seq<Seq<char>>)
    requires
        forall|i: int| 0 <= i < blocks.len() ==> ends_line(#[trigger] blocks[i]),
    ensures
        blocks.len() == 0 || ends_line(in_a_row(blocks)),
{
    if blocks.len() > 0 {
        assert(ends_line(blocks[blocks.len() - 1]));
    }
}

proof fn lemma_wider(
    page: Seq<char>,
    before: Seq<char>,
    part: Seq<char>,
    after: Seq<char>,
    block: Seq<char>,
)
    requires
        page == before + part + after,
        before.len() == 0 || ends_line(before),
        shows(part, block),
    ensures
        shows(page, block),
{
    reveal(shows);
    let (b, a) = choose|b: Seq<char>, a: Seq<char>| stands_between(part, b, block, a);
    assert(page =~= (before + b) + block + (a + after));
    assert(stands_between(page, before + b, block, a + after));
}

proof fn lemma_itself(block: Seq<char>)
    ensures
        shows(block, block),
{
    reveal(shows);
    let none = Seq::<char>::empty();
    assert(none + block + none =~= block);
    assert(stands_between(block, none, block, none));
}

proof fn lemma_row_shows(blocks: Seq<Seq<char>>, i: int)
    requires
        forall|i: int| 0 <= i < blocks.len() ==> ends_line(#[trigger] blocks[i]),
        0 <= i < blocks.len(),
    ensures
        shows(in_a_row(blocks), blocks[i]),
    decreases blocks.len(),
{
    let init = blocks.drop_last();
    let last = blocks[blocks.len() - 1];
    let row = in_a_row(init);
    let page = in_a_row(blocks);
    let none = Seq::<char>::empty();
    assert forall|k: int| 0 <= k < init.len() implies ends_line(#[trigger] init[k]) by {
        assert(init[k] == blocks[k]);
    }
    assert(page == row + last);
    if i == blocks.len() - 1 {
        lemma_row_ends_line(init);
        lemma_itself(last);
        assert(row + last + none =~= row + last);
        lemma_wider(page, row, last, none, last);
    } else {
        lemma_row_shows(init, i);
        assert(none + row + last =~= row + last);
        lemma_wider(page, none, row, last, blocks[i]);
    }
}

proof fn lemma_row_of_three(a: Seq<char>, b: Seq<char>, c: Seq<char>)
    ensures
        in_a_row(seq![a, b, c]) == a + b + c,
{
    reveal_with_fuel(in_a_row, 4);
    let blocks = seq![a, b, c];
    assert(blocks.drop_last() =~= seq![a, b]);
    assert(seq![a, b].drop_last() =~= seq![a]);
    assert(seq![a].drop_last() =~= Seq::<Seq<char>>::empty());
    assert(Seq::<char>::empty() + a =~= a);
}

proof fn lemma_row_of_five(a: Seq<char>, b: Seq<char>, c: Seq<char>, d: Seq<char>, e: Seq<char>)
    ensures
        in_a_row(seq![a, b, c, d, e]) == a + b + c + d + e,
{
    lemma_row_of_three(a, b, c);
    assert(seq![a, b, c, d, e].drop_last() =~= seq![a, b, c, d]);
    assert(seq![a, b, c, d].drop_last() =~= seq![a, b, c]);
    assert(in_a_row(seq![a, b, c, d]) == a + b + c + d);
}

proof fn lemma_evasion_page(figures: Figures) -> (part: Seq<char>)
    ensures
        part == metrics::evasion_page(figures),
        ends_line(part),
        shows(
            part,
            one_number(
                "xdp_evade_queries_total"@,
                "counter"@,
                "Total DNS queries rewritten for block evasion"@,
                text::decimal(figures.evaded_queries as nat),
            ),
        ),
        shows(
            part,
            one_number(
                "xdp_evade_records_total"@,
                "counter"@,
                "Total DNS records replaced for block evasion"@,
                text::decimal(figures.evaded_records as nat),
            ),
        ),
        shows(
            part,
            one_number(
                "xdp_evade_queries_processed"@,
                "counter"@,
                "Total queries processed by evasion proxy"@,
                text::decimal(figures.processed as nat),
            ),
        ),
{
    lemma_single(
        "xdp_evade_queries_total"@,
        "counter"@,
        "Total DNS queries rewritten for block evasion"@,
        text::decimal(figures.evaded_queries as nat),
    );
    lemma_single(
        "xdp_evade_records_total"@,
        "counter"@,
        "Total DNS records replaced for block evasion"@,
        text::decimal(figures.evaded_records as nat),
    );
    lemma_single(
        "xdp_evade_queries_processed"@,
        "counter"@,
        "Total queries processed by evasion proxy"@,
        text::decimal(figures.processed as nat),
    );
    lemma_one_ends_line(
        "xdp_evade_queries_total"@,
        "counter"@,
        "Total DNS queries rewritten for block evasion"@,
        text::decimal(figures.evaded_queries as nat),
    );
    lemma_one_ends_line(
        "xdp_evade_records_total"@,
        "counter"@,
        "Total DNS records replaced for block evasion"@,
        text::decimal(figures.evaded_records as nat),
    );
    lemma_one_ends_line(
        "xdp_evade_queries_processed"@,
        "counter"@,
        "Total queries processed by evasion proxy"@,
        text::decimal(figures.processed as nat),
    );
    let block0 = one_number(
        "xdp_evade_queries_total"@,
        "counter"@,
        "Total DNS queries rewritten for block evasion"@,
        text::decimal(figures.evaded_queries as nat),
    );
    let block1 = one_number(
        "xdp_evade_records_total"@,
        "counter"@,
        "Total DNS records replaced for block evasion"@,
        text::decimal(figures.evaded_records as nat),
    );
    let block2 = one_number(
        "xdp_evade_queries_processed"@,
        "counter"@,
        "Total queries processed by evasion proxy"@,
        text::decimal(figures.processed as nat),
    );
    lemma_row_of_three(block0, block1, block2);
    let blocks = seq![block0, block1, block2];
    assert forall|i: int| 0 <= i < blocks.len() implies ends_line(#[trigger] blocks[i]) by {
        assert(0 <= i < 3);
    }
    lemma_row_ends_line(blocks);
    lemma_row_shows(blocks, 0);
    lemma_row_shows(blocks, 1);
    lemma_row_shows(blocks, 2);
    in_a_row(blocks)
}

proof fn lemma_traffic_page(figures: Figures) -> (part: Seq<char>)
    ensures
        part == metrics::traffic_page(figures),
        ends_line(part),
        shows(
            part,
            two_numbers(
                "xdp_evade_dropped_total"@,
                "counter"@,
                "Queries dropped because the in-flight limit was reached"@,
                ("{proto=\"udp\"}"@, text::decimal(figures.dropped.first as nat)),
                ("{proto=\"tcp\"}"@, text::decimal(figures.dropped.second as nat)),
            ),
        ),
        shows(
            part,
            two_numbers(
                "xdp_evade_inflight"@,
                "gauge"@,
                "Queries currently waiting on the upstream resolver"@,
                ("{proto=\"udp\"}"@, text::decimal(figures.inflight.first as nat)),
                ("{proto=\"tcp\"}"@, text::decimal(figures.inflight.second as nat)),
            ),
        ),
        shows(
            part,
            two_numbers(
                "xdp_evade_upstream_failures_total"@,
                "counter"@,
                "Queries that got no answer from the upstream resolver"@,
                ("{proto=\"udp\"}"@, text::decimal(figures.failures.first as nat)),
                ("{proto=\"tcp\"}"@, text::decimal(figures.failures.second as nat)),
            ),
        ),
{
    lemma_double(
        "xdp_evade_dropped_total"@,
        "counter"@,
        "Queries dropped because the in-flight limit was reached"@,
        metrics::by_transport(),
        figures.dropped,
    );
    lemma_double(
        "xdp_evade_inflight"@,
        "gauge"@,
        "Queries currently waiting on the upstream resolver"@,
        metrics::by_transport(),
        figures.inflight,
    );
    lemma_double(
        "xdp_evade_upstream_failures_total"@,
        "counter"@,
        "Queries that got no answer from the upstream resolver"@,
        metrics::by_transport(),
        figures.failures,
    );
    lemma_two_end_line(
        "xdp_evade_dropped_total"@,
        "counter"@,
        "Queries dropped because the in-flight limit was reached"@,
        ("{proto=\"udp\"}"@, text::decimal(figures.dropped.first as nat)),
        ("{proto=\"tcp\"}"@, text::decimal(figures.dropped.second as nat)),
    );
    lemma_two_end_line(
        "xdp_evade_inflight"@,
        "gauge"@,
        "Queries currently waiting on the upstream resolver"@,
        ("{proto=\"udp\"}"@, text::decimal(figures.inflight.first as nat)),
        ("{proto=\"tcp\"}"@, text::decimal(figures.inflight.second as nat)),
    );
    lemma_two_end_line(
        "xdp_evade_upstream_failures_total"@,
        "counter"@,
        "Queries that got no answer from the upstream resolver"@,
        ("{proto=\"udp\"}"@, text::decimal(figures.failures.first as nat)),
        ("{proto=\"tcp\"}"@, text::decimal(figures.failures.second as nat)),
    );
    let block0 = two_numbers(
        "xdp_evade_dropped_total"@,
        "counter"@,
        "Queries dropped because the in-flight limit was reached"@,
        ("{proto=\"udp\"}"@, text::decimal(figures.dropped.first as nat)),
        ("{proto=\"tcp\"}"@, text::decimal(figures.dropped.second as nat)),
    );
    let block1 = two_numbers(
        "xdp_evade_inflight"@,
        "gauge"@,
        "Queries currently waiting on the upstream resolver"@,
        ("{proto=\"udp\"}"@, text::decimal(figures.inflight.first as nat)),
        ("{proto=\"tcp\"}"@, text::decimal(figures.inflight.second as nat)),
    );
    let block2 = two_numbers(
        "xdp_evade_upstream_failures_total"@,
        "counter"@,
        "Queries that got no answer from the upstream resolver"@,
        ("{proto=\"udp\"}"@, text::decimal(figures.failures.first as nat)),
        ("{proto=\"tcp\"}"@, text::decimal(figures.failures.second as nat)),
    );
    lemma_row_of_three(block0, block1, block2);
    let blocks = seq![block0, block1, block2];
    assert forall|i: int| 0 <= i < blocks.len() implies ends_line(#[trigger] blocks[i]) by {
        assert(0 <= i < 3);
    }
    lemma_row_ends_line(blocks);
    lemma_row_shows(blocks, 0);
    lemma_row_shows(blocks, 1);
    lemma_row_shows(blocks, 2);
    in_a_row(blocks)
}

proof fn lemma_lists_page(figures: Figures, last_reload: Seq<char>) -> (part: Seq<char>)
    ensures
        part == metrics::lists_page(figures, last_reload),
        ends_line(part),
        shows(
            part,
            two_numbers(
                "xdp_evade_blocked_ips"@,
                "gauge"@,
                "Addresses in the loaded blocklists"@,
                ("{family=\"ipv4\"}"@, text::decimal(figures.blocked.first as nat)),
                ("{family=\"ipv6\"}"@, text::decimal(figures.blocked.second as nat)),
            ),
        ),
        shows(
            part,
            two_numbers(
                "xdp_evade_evadable_ips"@,
                "gauge"@,
                "Blocked addresses with a free neighbour to jump to"@,
                ("{family=\"ipv4\"}"@, text::decimal(figures.evadable.first as nat)),
                ("{family=\"ipv6\"}"@, text::decimal(figures.evadable.second as nat)),
            ),
        ),
        shows(
            part,
            two_numbers(
                "xdp_evade_cloudflare_ranges"@,
                "gauge"@,
                "Merged Cloudflare ranges eligible for rewriting"@,
                ("{family=\"ipv4\"}"@, text::decimal(figures.ranges.first as nat)),
                ("{family=\"ipv6\"}"@, text::decimal(figures.ranges.second as nat)),
            ),
        ),
        shows(
            part,
            one_number(
                "xdp_evade_active_redirects"@,
                "gauge"@,
                "Temporary redirects set by the residential probe"@,
                text::decimal(figures.redirects as nat),
            ),
        ),
        shows(
            part,
            one_number(
                "xdp_evade_last_reload_timestamp_seconds"@,
                "gauge"@,
                "When the lists were last (re)loaded"@,
                last_reload,
            ),
        ),
{
    lemma_double(
        "xdp_evade_blocked_ips"@,
        "gauge"@,
        "Addresses in the loaded blocklists"@,
        metrics::by_family(),
        figures.blocked,
    );
    lemma_double(
        "xdp_evade_evadable_ips"@,
        "gauge"@,
        "Blocked addresses with a free neighbour to jump to"@,
        metrics::by_family(),
        figures.evadable,
    );
    lemma_double(
        "xdp_evade_cloudflare_ranges"@,
        "gauge"@,
        "Merged Cloudflare ranges eligible for rewriting"@,
        metrics::by_family(),
        figures.ranges,
    );
    lemma_single(
        "xdp_evade_active_redirects"@,
        "gauge"@,
        "Temporary redirects set by the residential probe"@,
        text::decimal(figures.redirects as nat),
    );
    lemma_single(
        "xdp_evade_last_reload_timestamp_seconds"@,
        "gauge"@,
        "When the lists were last (re)loaded"@,
        last_reload,
    );
    lemma_two_end_line(
        "xdp_evade_blocked_ips"@,
        "gauge"@,
        "Addresses in the loaded blocklists"@,
        ("{family=\"ipv4\"}"@, text::decimal(figures.blocked.first as nat)),
        ("{family=\"ipv6\"}"@, text::decimal(figures.blocked.second as nat)),
    );
    lemma_two_end_line(
        "xdp_evade_evadable_ips"@,
        "gauge"@,
        "Blocked addresses with a free neighbour to jump to"@,
        ("{family=\"ipv4\"}"@, text::decimal(figures.evadable.first as nat)),
        ("{family=\"ipv6\"}"@, text::decimal(figures.evadable.second as nat)),
    );
    lemma_two_end_line(
        "xdp_evade_cloudflare_ranges"@,
        "gauge"@,
        "Merged Cloudflare ranges eligible for rewriting"@,
        ("{family=\"ipv4\"}"@, text::decimal(figures.ranges.first as nat)),
        ("{family=\"ipv6\"}"@, text::decimal(figures.ranges.second as nat)),
    );
    lemma_one_ends_line(
        "xdp_evade_active_redirects"@,
        "gauge"@,
        "Temporary redirects set by the residential probe"@,
        text::decimal(figures.redirects as nat),
    );
    lemma_one_ends_line(
        "xdp_evade_last_reload_timestamp_seconds"@,
        "gauge"@,
        "When the lists were last (re)loaded"@,
        last_reload,
    );
    let block0 = two_numbers(
        "xdp_evade_blocked_ips"@,
        "gauge"@,
        "Addresses in the loaded blocklists"@,
        ("{family=\"ipv4\"}"@, text::decimal(figures.blocked.first as nat)),
        ("{family=\"ipv6\"}"@, text::decimal(figures.blocked.second as nat)),
    );
    let block1 = two_numbers(
        "xdp_evade_evadable_ips"@,
        "gauge"@,
        "Blocked addresses with a free neighbour to jump to"@,
        ("{family=\"ipv4\"}"@, text::decimal(figures.evadable.first as nat)),
        ("{family=\"ipv6\"}"@, text::decimal(figures.evadable.second as nat)),
    );
    let block2 = two_numbers(
        "xdp_evade_cloudflare_ranges"@,
        "gauge"@,
        "Merged Cloudflare ranges eligible for rewriting"@,
        ("{family=\"ipv4\"}"@, text::decimal(figures.ranges.first as nat)),
        ("{family=\"ipv6\"}"@, text::decimal(figures.ranges.second as nat)),
    );
    let block3 = one_number(
        "xdp_evade_active_redirects"@,
        "gauge"@,
        "Temporary redirects set by the residential probe"@,
        text::decimal(figures.redirects as nat),
    );
    let block4 = one_number(
        "xdp_evade_last_reload_timestamp_seconds"@,
        "gauge"@,
        "When the lists were last (re)loaded"@,
        last_reload,
    );
    lemma_row_of_five(block0, block1, block2, block3, block4);
    let blocks = seq![block0, block1, block2, block3, block4];
    assert forall|i: int| 0 <= i < blocks.len() implies ends_line(#[trigger] blocks[i]) by {
        assert(0 <= i < 5);
    }
    lemma_row_ends_line(blocks);
    lemma_row_shows(blocks, 0);
    lemma_row_shows(blocks, 1);
    lemma_row_shows(blocks, 2);
    lemma_row_shows(blocks, 3);
    lemma_row_shows(blocks, 4);
    in_a_row(blocks)
}

/// The metrics page shows how many queries and records were evaded and how many queries
/// were looked at.
pub proof fn law_page_shows_evasion(
    app: App,
    stats: StatsFile,
    inflight: Pair,
    last_reload: Seq<char>,
)
    ensures
        ({
            let page = metrics::page(metrics::figures_of(app, stats, inflight), last_reload);
            &&& shows(
                page,
                one_number(
                    "xdp_evade_queries_total"@,
                    "counter"@,
                    "Total DNS queries rewritten for block evasion"@,
                    text::decimal(stats.evaded_queries_total as nat),
                ),
            )
            &&& shows(
                page,
                one_number(
                    "xdp_evade_records_total"@,
                    "counter"@,
                    "Total DNS records replaced for block evasion"@,
                    text::decimal(stats.evaded_records_total as nat),
                ),
            )
            &&& shows(
                page,
                one_number(
                    "xdp_evade_queries_processed"@,
                    "counter"@,
                    "Total queries processed by evasion proxy"@,
                    text::decimal(stats.total_queries_processed as nat),
                ),
            )
        }),
{
    let figures = metrics::figures_of(app, stats, inflight);
    let page = metrics::page(figures, last_reload);
    let evasion = lemma_evasion_page(figures);
    let traffic = lemma_traffic_page(figures);
    let lists = lemma_lists_page(figures, last_reload);
    assert(page =~= Seq::<char>::empty() + evasion + (traffic + lists));
    lemma_wider(
        page,
        Seq::empty(),
        evasion,
        traffic + lists,
        one_number(
            "xdp_evade_queries_total"@,
            "counter"@,
            "Total DNS queries rewritten for block evasion"@,
            text::decimal(figures.evaded_queries as nat),
        ),
    );
    lemma_wider(
        page,
        Seq::empty(),
        evasion,
        traffic + lists,
        one_number(
            "xdp_evade_records_total"@,
            "counter"@,
            "Total DNS records replaced for block evasion"@,
            text::decimal(figures.evaded_records as nat),
        ),
    );
    lemma_wider(
        page,
        Seq::empty(),
        evasion,
        traffic + lists,
        one_number(
            "xdp_evade_queries_processed"@,
            "counter"@,
            "Total queries processed by evasion proxy"@,
            text::decimal(figures.processed as nat),
        ),
    );
}

/// The metrics page shows for each transport how many queries were dropped, how many
/// wait, and how many failed.
pub proof fn law_page_shows_traffic(
    app: App,
    stats: StatsFile,
    inflight: Pair,
    last_reload: Seq<char>,
)
    ensures
        ({
            let page = metrics::page(metrics::figures_of(app, stats, inflight), last_reload);
            &&& shows(
                page,
                two_numbers(
                    "xdp_evade_dropped_total"@,
                    "counter"@,
                    "Queries dropped because the in-flight limit was reached"@,
                    ("{proto=\"udp\"}"@, text::decimal(app.counters.dropped_udp as nat)),
                    ("{proto=\"tcp\"}"@, text::decimal(app.counters.dropped_tcp as nat)),
                ),
            )
            &&& shows(
                page,
                two_numbers(
                    "xdp_evade_inflight"@,
                    "gauge"@,
                    "Queries currently waiting on the upstream resolver"@,
                    ("{proto=\"udp\"}"@, text::decimal(inflight.first as nat)),
                    ("{proto=\"tcp\"}"@, text::decimal(inflight.second as nat)),
                ),
            )
            &&& shows(
                page,
                two_numbers(
                    "xdp_evade_upstream_failures_total"@,
                    "counter"@,
                    "Queries that got no answer from the upstream resolver"@,
                    ("{proto=\"udp\"}"@, text::decimal(app.counters.upstream_failures_udp as nat)),
                    ("{proto=\"tcp\"}"@, text::decimal(app.counters.upstream_failures_tcp as nat)),
                ),
            )
        }),
{
    let figures = metrics::figures_of(app, stats, inflight);
    let page = metrics::page(figures, last_reload);
    let evasion = lemma_evasion_page(figures);
    let traffic = lemma_traffic_page(figures);
    let lists = lemma_lists_page(figures, last_reload);
    assert(page =~= evasion + traffic + (lists));
    lemma_wider(
        page,
        evasion,
        traffic,
        lists,
        two_numbers(
            "xdp_evade_dropped_total"@,
            "counter"@,
            "Queries dropped because the in-flight limit was reached"@,
            ("{proto=\"udp\"}"@, text::decimal(figures.dropped.first as nat)),
            ("{proto=\"tcp\"}"@, text::decimal(figures.dropped.second as nat)),
        ),
    );
    lemma_wider(
        page,
        evasion,
        traffic,
        lists,
        two_numbers(
            "xdp_evade_inflight"@,
            "gauge"@,
            "Queries currently waiting on the upstream resolver"@,
            ("{proto=\"udp\"}"@, text::decimal(figures.inflight.first as nat)),
            ("{proto=\"tcp\"}"@, text::decimal(figures.inflight.second as nat)),
        ),
    );
    lemma_wider(
        page,
        evasion,
        traffic,
        lists,
        two_numbers(
            "xdp_evade_upstream_failures_total"@,
            "counter"@,
            "Queries that got no answer from the upstream resolver"@,
            ("{proto=\"udp\"}"@, text::decimal(figures.failures.first as nat)),
            ("{proto=\"tcp\"}"@, text::decimal(figures.failures.second as nat)),
        ),
    );
}

/// The metrics page shows for each address family how many addresses are blocked, how
/// many of these can be evaded, and how many ranges are rewritable; and the number of
/// temporary redirects, and the time of the last load.
pub proof fn law_page_shows_lists(
    app: App,
    stats: StatsFile,
    inflight: Pair,
    last_reload: Seq<char>,
)
    ensures
        ({
            let page = metrics::page(metrics::figures_of(app, stats, inflight), last_reload);
            &&& shows(
                page,
                two_numbers(
                    "xdp_evade_blocked_ips"@,
                    "gauge"@,
                    "Addresses in the loaded blocklists"@,
                    ("{family=\"ipv4\"}"@, text::decimal(app.data.blocked_v4@.len() as u64 as nat)),
                    ("{family=\"ipv6\"}"@, text::decimal(app.data.blocked_v6@.len() as u64 as nat)),
                ),
            )
            &&& shows(
                page,
                two_numbers(
                    "xdp_evade_evadable_ips"@,
                    "gauge"@,
                    "Blocked addresses with a free neighbour to jump to"@,
                    ("{family=\"ipv4\"}"@, text::decimal(app.data.evasion_v4@.len() as u64 as nat)),
                    ("{family=\"ipv6\"}"@, text::decimal(app.data.evasion_v6@.len() as u64 as nat)),
                ),
            )
            &&& shows(
                page,
                two_numbers(
                    "xdp_evade_cloudflare_ranges"@,
                    "gauge"@,
                    "Merged Cloudflare ranges eligible for rewriting"@,
                    ("{family=\"ipv4\"}"@, text::decimal(app.data.cf_v4@.len() as u64 as nat)),
                    ("{family=\"ipv6\"}"@, text::decimal(app.data.cf_v6@.len() as u64 as nat)),
                ),
            )
            &&& shows(
                page,
                one_number(
                    "xdp_evade_active_redirects"@,
                    "gauge"@,
                    "Temporary redirects set by the residential probe"@,
                    text::decimal(app.temporary_redirects@.len() as u64 as nat),
                ),
            )
            &&& shows(
                page,
                one_number(
                    "xdp_evade_last_reload_timestamp_seconds"@,
                    "gauge"@,
                    "When the lists were last (re)loaded"@,
                    last_reload,
                ),
            )
        }),
{
    let figures = metrics::figures_of(app, stats, inflight);
    let page = metrics::page(figures, last_reload);
    let evasion = lemma_evasion_page(figures);
    let traffic = lemma_traffic_page(figures);
    let lists = lemma_lists_page(figures, last_reload);
    assert(page =~= evasion + traffic + lists + Seq::<char>::empty());
    lemma_wider(
        page,
        evasion + traffic,
        lists,
        Seq::empty(),
        two_numbers(
            "xdp_evade_blocked_ips"@,
            "gauge"@,
            "Addresses in the loaded blocklists"@,
            ("{family=\"ipv4\"}"@, text::decimal(figures.blocked.first as nat)),
            ("{family=\"ipv6\"}"@, text::decimal(figures.blocked.second as nat)),
        ),
    );
    lemma_wider(
        page,
        evasion + traffic,
        lists,
        Seq::empty(),
        two_numbers(
            "xdp_evade_evadable_ips"@,
            "gauge"@,
            "Blocked addresses with a free neighbour to jump to"@,
            ("{family=\"ipv4\"}"@, text::decimal(figures.evadable.first as nat)),
            ("{family=\"ipv6\"}"@, text::decimal(figures.evadable.second as nat)),
        ),
    );
    lemma_wider(
        page,
        evasion + traffic,
        lists,
        Seq::empty(),
        two_numbers(
            "xdp_evade_cloudflare_ranges"@,
            "gauge"@,
            "Merged Cloudflare ranges eligible for rewriting"@,
            ("{family=\"ipv4\"}"@, text::decimal(figures.ranges.first as nat)),
            ("{family=\"ipv6\"}"@, text::decimal(figures.ranges.second as nat)),
        ),
    );
    lemma_wider(
        page,
        evasion + traffic,
        lists,
        Seq::empty(),
        one_number(
            "xdp_evade_active_redirects"@,
            "gauge"@,
            "Temporary redirects set by the residential probe"@,
            text::decimal(figures.redirects as nat),
        ),
    );
    lemma_wider(
        page,
        evasion + traffic,
        lists,
        Seq::empty(),
        one_number(
            "xdp_evade_last_reload_timestamp_seconds"@,
            "gauge"@,
            "When the lists were last (re)loaded"@,
            last_reload,
        ),
    );
}

} // verus!
