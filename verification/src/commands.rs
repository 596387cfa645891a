//! What holds of the command line.

use crate::address;
use crate::config;
use crate::files;
use crate::redirects;
use crate::redirects::{ErrorKind, TestRedirect};
use vstd::prelude::*;

verus! {

/// The rule at place `i` of the command line: what follows `--redirect`, or what stands
/// behind `--redirect=`.
pub open spec fn rule_at(args: Seq<Seq<char>>, i: int) -> Option<Seq<char>> {
    if i > 0 && args[i - 1] == "--redirect"@ {
        Some(args[i])
    } else if args[i].len() >= 11 && args[i].take(11) == "--redirect="@ {
        Some(args[i].skip(11))
    } else {
        None
    }
}

/// Whether the argument at `i` can stand there: a rule without a fault, `--test`, or
/// `--redirect` with an argument behind it.
pub open spec fn sound_at(args: Seq<Seq<char>>, i: int) -> bool {
    match rule_at(args, i) {
        Some(rule) => redirects::rule_fault(rule) is None,
        None => args[i] == "--test"@ || (args[i] == "--redirect"@ && i + 1 < args.len()),
    }
}

/// Whether place `at` is none behind `--redirect`.
spec fn own_place(args: Seq<Seq<char>>, at: nat) -> bool {
    at <= args.len() && (at == 0 || args[at - 1] != "--redirect"@)
}

proof fn lemma_words()
    ensures
        "--test"@.len() == 6,
        "--redirect"@.len() == 10,
        "--redirect="@.len() == 11,
        "--help"@.len() == 6,
        "-h"@.len() == 2,
        "--test"@ != "--help"@,
        !"--redirect"@.contains('='),
{
    reveal_strlit("--test");
    reveal_strlit("--redirect");
    reveal_strlit("--redirect=");
    reveal_strlit("--help");
    reveal_strlit("-h");
    assert("--test"@[2] == 't');
    assert("--help"@[2] == 'h');
    let word = "--redirect"@;
    if word.contains('=') {
        let k = choose|k: int| 0 <= k < word.len() && word[k] == '=';
        assert(0 <= k < 10);
    }
}

proof fn lemma_rule_is_no_option(rule: Seq<char>)
    requires
        redirects::rule_fault(rule) is None,
    ensures
        rule != "--redirect"@,
        forall|table: Map<Seq<char>, TestRedirect>| #[trigger]
            redirects::table_with(table, rule) != Map::<Seq<char>, TestRedirect>::empty(),
{
    lemma_words();
    files::lemma_rule_spelled(rule);
    let (domain, ip) = redirects::rule_parts(rule)->0;
    assert(rule[domain.len() as int] == '=');
    let name = redirects::normalized(domain)->0;
    assert forall|table: Map<Seq<char>, TestRedirect>| #[trigger]
        redirects::table_with(table, rule) != Map::<Seq<char>, TestRedirect>::empty() by {
        assert(redirects::table_with(table, rule).contains_key(name));
    }
}

/// What a command line means that the argument at `i` brings to an end: a rule with a
/// fault is refused for it, `--redirect` lacks a rule, `--help` and `-h` ask for the
/// help, and anything else is unknown.
pub open spec fn stopped_at(args: Seq<Seq<char>>, i: int) -> Result<
    Option<(bool, Map<Seq<char>, TestRedirect>)>,
    (ErrorKind, Seq<char>),
> {
    match rule_at(args, i) {
        Some(rule) => Err(redirects::rule_fault(rule)->0),
        None => if args[i] == "--redirect"@ {
            Err((ErrorKind::MissingRule, Seq::empty()))
        } else if args[i] == "--help"@ || args[i] == "-h"@ {
            Ok(None)
        } else {
            Err((ErrorKind::UnknownArgument, args[i]))
        },
    }
}

/// What a command line means is decided by the first argument that cannot stand where
/// it stands.
pub proof fn law_first_argument_at_fault(args: Seq<Seq<char>>, i: int)
    requires
        0 <= i < args.len(),
        forall|j: int| 0 <= j < i ==> #[trigger] sound_at(args, j),
        !sound_at(args, i),
    ensures
        config::meaning(args, 0, false, Map::empty()) == stopped_at(args, i),
{
    lemma_first_fault(args, 0, false, Map::empty(), i);
}

proof fn lemma_first_fault(
    args: Seq<Seq<char>>,
    at: nat,
    test_mode: bool,
    table: Map<Seq<char>, TestRedirect>,
    i: int,
)
    requires
        own_place(args, at),
        at <= i < args.len(),
        forall|j: int| at <= j < i ==> #[trigger] sound_at(args, j),
        !sound_at(args, i),
    ensures
        config::meaning(args, at, test_mode, table) == stopped_at(args, i),
    decreases args.len() - at,
{
    lemma_words();
    let arg = args[at as int];
    if at < i {
        assert(sound_at(args, at as int));
        if arg == "--test"@ {
            lemma_first_fault(args, at + 1, true, table, i);
        } else if arg == "--redirect"@ {
            let rule = args[at as int + 1];
            assert(rule_at(args, at as int + 1) == Some(rule));
            if at + 1 < i {
                assert(sound_at(args, at as int + 1));
                lemma_rule_is_no_option(rule);
                lemma_first_fault(args, at + 2, test_mode, redirects::table_with(table, rule), i);
            }
        } else {
            let rule = arg.skip(11);
            assert(rule_at(args, at as int) == Some(rule));
            lemma_first_fault(args, at + 1, test_mode, redirects::table_with(table, rule), i);
        }
    }
}

/// Whether one of the arguments from `at` on is `--test`.
spec fn tests_from(args: Seq<Seq<char>>, at: nat) -> bool {
    exists|k: int| at <= k < args.len() && #[trigger] args[k] == "--test"@
}

/// Whether one of the arguments from `at` on is a rule.
spec fn rules_from(args: Seq<Seq<char>>, at: nat) -> bool {
    exists|k: int| at <= k < args.len() && #[trigger] rule_at(args, k) is Some
}

/// A command line whose arguments can all stand where they stand asks to serve: in test
/// mode exactly where `--test` is among them, without which rules are refused.
pub proof fn law_sound_arguments(args: Seq<Seq<char>>)
    requires
        forall|j: int| 0 <= j < args.len() ==> #[trigger] sound_at(args, j),
    ensures
        match config::meaning(args, 0, false, Map::empty()) {
            Ok(Some((test_mode, table))) => {
                &&& test_mode <==> args.contains("--test"@)
                &&& test_mode || forall|k: int| 0 <= k < args.len() ==> #[trigger] rule_at(args, k) is None
            },
            Ok(None) => false,
            Err((kind, text)) => {
                &&& kind == ErrorKind::RedirectWithoutTest && text.len() == 0
                &&& !args.contains("--test"@)
                &&& exists|k: int| 0 <= k < args.len() && #[trigger] rule_at(args, k) is Some
            },
        },
{
    lemma_sound(args, 0, false, Map::empty());
    assert(tests_from(args, 0) <==> args.contains("--test"@)) by {
        if tests_from(args, 0) {
            let k = choose|k: int| 0 <= k < args.len() && #[trigger] args[k] == "--test"@;
            assert(args.contains(args[k]));
        }
    }
}

proof fn lemma_sound(
    args: Seq<Seq<char>>,
    at: nat,
    test_mode: bool,
    table: Map<Seq<char>, TestRedirect>,
)
    requires
        own_place(args, at),
        forall|j: int| at <= j < args.len() ==> #[trigger] sound_at(args, j),
    ensures
        ({
            let empty = table == Map::<Seq<char>, TestRedirect>::empty() && !rules_from(args, at);
            match config::meaning(args, at, test_mode, table) {
                Ok(Some((mode, found))) => {
                    &&& mode == (test_mode || tests_from(args, at))
                    &&& mode || empty
                },
                Ok(None) => false,
                Err((kind, text)) => {
                    &&& kind == ErrorKind::RedirectWithoutTest && text.len() == 0
                    &&& !test_mode && !tests_from(args, at)
                    &&& !empty
                },
            }
        }),
    decreases args.len() - at,
{
    lemma_words();
    if at < args.len() {
        let here = at as int;
        let arg = args[here];
        assert(sound_at(args, here));
        if arg == "--test"@ {
            lemma_sound(args, at + 1, true, table);
            assert(tests_from(args, at));
        } else if arg == "--redirect"@ {
            let rule = args[here + 1];
            assert(rule_at(args, here + 1) == Some(rule));
            assert(sound_at(args, here + 1));
            lemma_rule_is_no_option(rule);
            assert(rule != "--test"@) by {
                if rule == "--test"@ {
                    lemma_test_is_no_rule();
                }
            }
            lemma_sound(args, at + 2, test_mode, redirects::table_with(table, rule));
            lemma_tests_skip(args, at);
            lemma_tests_skip(args, at + 1);
            assert(rules_from(args, at));
        } else {
            let rule = arg.skip(11);
            assert(rule_at(args, here) == Some(rule));
            lemma_rule_is_no_option(rule);
            lemma_sound(args, at + 1, test_mode, redirects::table_with(table, rule));
            lemma_tests_skip(args, at);
            assert(rules_from(args, at));
        }
        if arg == "--test"@ {
            assert(rules_from(args, at) <==> rules_from(args, at + 1)) by {
                if rules_from(args, at) {
                    let k = choose|k: int|
                        at <= k < args.len() && #[trigger] rule_at(args, k) is Some;
                    assert(rule_at(args, here) is None);
                }
            }
        }
    }
}

proof fn lemma_test_is_no_rule()
    ensures
        redirects::rule_fault("--test"@) is Some,
{
    reveal_strlit("--test");
    let word = "--test"@;
    if word.contains('=') {
        let k = choose|k: int| 0 <= k < word.len() && word[k] == '=';
        assert(0 <= k < 6);
    }
    files::law_no_rule(Map::empty(), word);
}

proof fn lemma_tests_skip(args: Seq<Seq<char>>, at: nat)
    requires
        at < args.len(),
        args[at as int] != "--test"@,
    ensures
        tests_from(args, at) == tests_from(args, at + 1),
{
    if tests_from(args, at) {
        let k = choose|k: int| at <= k < args.len() && #[trigger] args[k] == "--test"@;
        assert(args[k] == "--test"@);
    }
}

/// Whether the rule at `i` pins the IPv4 address for `name`.
pub open spec fn rule_pins_v4(
    args: Seq<Seq<char>>,
    i: int,
    name: Seq<char>,
    address: u32,
) -> bool {
    exists|domain: Seq<char>, ip: Seq<char>|
        rule_at(args, i) == Some(#[trigger] (domain + seq!['='] + ip)) && !domain.contains('=')
            && redirects::normalized(domain) == Some(name) && address::ipv4_of(ip) == Some(address)
}

/// Whether the rule at `i` pins the IPv6 address for `name`.
pub open spec fn rule_pins_v6(
    args: Seq<Seq<char>>,
    i: int,
    name: Seq<char>,
    address: u128,
) -> bool {
    exists|domain: Seq<char>, ip: Seq<char>|
        rule_at(args, i) == Some(#[trigger] (domain + seq!['='] + ip)) && !domain.contains('=')
            && redirects::normalized(domain) == Some(name) && address::ipv4_of(ip) is None && address::ipv6_of(ip) == Some(address)
}

/// What the rule at `i` pins for `name`.
spec fn hit_at(args: Seq<Seq<char>>, i: int, name: Seq<char>) -> TestRedirect {
    match rule_at(args, i) {
        Some(rule) => match redirects::rule_parts(rule) {
            Some((domain, ip)) => if redirects::normalized(domain) == Some(name) {
                TestRedirect {
                    v4: address::ipv4_of(ip),
                    v6: if address::ipv4_of(ip) is None {
                        address::ipv6_of(ip)
                    } else {
                        None
                    },
                    expires_at: None,
                }
            } else {
                TestRedirect::none()
            },
            None => TestRedirect::none(),
        },
        None => TestRedirect::none(),
    }
}

proof fn lemma_hit_v4(args: Seq<Seq<char>>, i: int, name: Seq<char>, address: u32)
    ensures
        rule_pins_v4(args, i, name, address) <==> hit_at(args, i, name).v4 == Some(address),
{
    if rule_pins_v4(args, i, name, address) {
        let (domain, ip) = choose|domain: Seq<char>, ip: Seq<char>|
            rule_at(args, i) == Some(#[trigger] (domain + seq!['='] + ip)) && !domain.contains('=')
                && redirects::normalized(domain) == Some(name) && address::ipv4_of(ip) == Some(address);
        files::lemma_rule_parts(domain, ip);
    }
    if hit_at(args, i, name).v4 == Some(address) {
        let rule = rule_at(args, i)->0;
        files::lemma_rule_spelled(rule);
        let (domain, ip) = redirects::rule_parts(rule)->0;
        assert(rule == domain + seq!['='] + ip);
    }
}

proof fn lemma_hit_v6(args: Seq<Seq<char>>, i: int, name: Seq<char>, address: u128)
    ensures
        rule_pins_v6(args, i, name, address) <==> hit_at(args, i, name).v6 == Some(address),
{
    if rule_pins_v6(args, i, name, address) {
        let (domain, ip) = choose|domain: Seq<char>, ip: Seq<char>|
            rule_at(args, i) == Some(#[trigger] (domain + seq!['='] + ip)) && !domain.contains('=')
                && redirects::normalized(domain) == Some(name) && address::ipv4_of(ip) is None && address::ipv6_of(ip) == Some(address);
        files::lemma_rule_parts(domain, ip);
    }
    if hit_at(args, i, name).v6 == Some(address) {
        let rule = rule_at(args, i)->0;
        files::lemma_rule_spelled(rule);
        let (domain, ip) = redirects::rule_parts(rule)->0;
        assert(rule == domain + seq!['='] + ip);
    }
}

/// What is left of `before` after the hits from `at` on.
spec fn result_from<T>(
    hit: spec_fn(int) -> Option<T>,
    at: int,
    len: int,
    before: Option<T>,
) -> Option<T>
    decreases len - at,
{
    if at >= len {
        before
    } else {
        result_from(hit, at + 1, len, files::last_of(hit(at), before))
    }
}

/// Whether the hit at `i` is the last one of those from `at` on, and it is `value`.
spec fn last_from<T>(
    hit: spec_fn(int) -> Option<T>,
    at: int,
    i: int,
    len: int,
    value: T,
) -> bool {
    at <= i < len && hit(i) == Some(value) && forall|j: int| i < j < len ==> #[trigger] hit(j) is None
}

proof fn lemma_result_from<T>(
    hit: spec_fn(int) -> Option<T>,
    at: int,
    len: int,
    before: Option<T>,
    value: T,
)
    requires
        at <= len,
    ensures
        result_from(hit, at, len, before) == Some(value) <==> {
            ||| exists|i: int| last_from(hit, at, i, len, value)
            ||| before == Some(value) && forall|j: int| at <= j < len ==> #[trigger] hit(j) is None
        },
    decreases len - at,
{
    if at < len {
        let then = at + 1;
        let next = files::last_of(hit(at), before);
        lemma_result_from(hit, then, len, next, value);
        if exists|i: int| last_from(hit, then, i, len, value) {
            let i = choose|i: int| last_from(hit, then, i, len, value);
            assert(last_from(hit, at, i, len, value));
        }
        if next == Some(value) && forall|j: int| at + 1 <= j < len ==> #[trigger] hit(j) is None {
            if hit(at) is Some {
                assert(last_from(hit, at, at, len, value));
            }
        }
        if exists|i: int| last_from(hit, at, i, len, value) {
            let i = choose|i: int| last_from(hit, at, i, len, value);
            if i > at {
                assert(last_from(hit, then, i, len, value));
            }
        }
    }
}

proof fn lemma_rule_hits(
    table: Map<Seq<char>, TestRedirect>,
    args: Seq<Seq<char>>,
    i: int,
    name: Seq<char>,
)
    requires
        rule_at(args, i) is Some,
        redirects::rule_fault(rule_at(args, i)->0) is None,
    ensures
        ({
            let before = redirects::redirect_or_none(table, name);
            let after = redirects::redirect_or_none(
                redirects::table_with(table, rule_at(args, i)->0),
                name,
            );
            let hit = hit_at(args, i, name);
            &&& after.v4 == files::last_of(hit.v4, before.v4)
            &&& after.v6 == files::last_of(hit.v6, before.v6)
            &&& after.expires_at == before.expires_at
        }),
{
}

proof fn lemma_table_walk(
    args: Seq<Seq<char>>,
    at: nat,
    test_mode: bool,
    table: Map<Seq<char>, TestRedirect>,
    name: Seq<char>,
)
    requires
        own_place(args, at),
        config::meaning(args, at, test_mode, table) matches Ok(Some(_)),
    ensures
        ({
            let len = args.len() as int;
            let before = redirects::redirect_or_none(table, name);
            let (_, read) = (config::meaning(args, at, test_mode, table)->Ok_0)->Some_0;
            let found = redirects::redirect_or_none(read, name);
            &&& found.v4 == result_from(|k: int| hit_at(args, k, name).v4, at as int, len, before.v4)
            &&& found.v6 == result_from(|k: int| hit_at(args, k, name).v6, at as int, len, before.v6)
            &&& found.expires_at == before.expires_at
        }),
    decreases args.len() - at,
{
    lemma_words();
    let v4 = |k: int| hit_at(args, k, name).v4;
    let v6 = |k: int| hit_at(args, k, name).v6;
    let len = args.len() as int;
    let here = at as int;
    let before = redirects::redirect_or_none(table, name);
    if at < args.len() {
        let arg = args[here];
        if arg == "--test"@ {
            assert(rule_at(args, here) is None);
            lemma_table_walk(args, at + 1, true, table, name);
        } else if arg == "--redirect"@ {
            assert(rule_at(args, here) is None);
            let rule = args[here + 1];
            assert(rule_at(args, here + 1) == Some(rule));
            lemma_rule_is_no_option(rule);
            let after = redirects::table_with(table, rule);
            lemma_rule_hits(table, args, here + 1, name);
            lemma_table_walk(args, at + 2, test_mode, after, name);
            assert(result_from(v4, here, len, before.v4) == result_from(
                v4,
                here + 1,
                len,
                before.v4,
            ));
            assert(result_from(v6, here, len, before.v6) == result_from(
                v6,
                here + 1,
                len,
                before.v6,
            ));
        } else {
            let rule = arg.skip(11);
            assert(rule_at(args, here) == Some(rule));
            let after = redirects::table_with(table, rule);
            lemma_rule_hits(table, args, here, name);
            lemma_table_walk(args, at + 1, test_mode, after, name);
        }
    }
}

/// Of the rules on the command line, the last one that pins an IPv4 address for a
/// domain says which one it has, and it has it for good.
pub proof fn law_last_rule_pins_v4(args: Seq<Seq<char>>, name: Seq<char>, address: u32)
    ensures
        config::meaning(args, 0, false, Map::empty()) matches Ok(Some((_, table))) ==> {
            &&& table.contains_key(name) && table[name].v4 == Some(address) <==> exists|i: int|
                0 <= i < args.len() && #[trigger] rule_pins_v4(args, i, name, address) && forall|
                    j: int,
                    other: u32,
                |
                    i < j < args.len() ==> !#[trigger] rule_pins_v4(args, j, name, other)
            &&& table.contains_key(name) ==> table[name].expires_at is None
        },
{
    let none = Map::<Seq<char>, TestRedirect>::empty();
    if let Ok(Some((_, table))) = config::meaning(args, 0, false, none) {
        let hit = |k: int| hit_at(args, k, name).v4;
        let len = args.len() as int;
        lemma_table_walk(args, 0, false, none, name);
        lemma_result_from(hit, 0, len, None, address);
        assert forall|k: int, some: u32| #[trigger]
            rule_pins_v4(args, k, name, some) <==> hit(k) == Some(some) by {
            lemma_hit_v4(args, k, name, some);
        }
        let found = redirects::redirect_or_none(table, name).v4;
        assert(found == result_from(hit, 0, len, None));
        if found == Some(address) {
            let i = choose|i: int| last_from(hit, 0, i, len, address);
            assert(rule_pins_v4(args, i, name, address));
            assert forall|j: int, other: u32| i < j < len implies !#[trigger] rule_pins_v4(
                args,
                j,
                name,
                other,
            ) by {
                assert(hit(j) is None);
            }
        }
        if exists|i: int|
            0 <= i < len && #[trigger] rule_pins_v4(args, i, name, address) && forall|
                j: int,
                other: u32,
            |
                i < j < len ==> !#[trigger] rule_pins_v4(args, j, name, other) {
            let i = choose|i: int|
                0 <= i < len && #[trigger] rule_pins_v4(args, i, name, address) && forall|
                    j: int,
                    other: u32,
                |
                    i < j < len ==> !#[trigger] rule_pins_v4(args, j, name, other);
            assert forall|j: int| i < j < len implies #[trigger] hit(j) is None by {
                if hit(j) is Some {
                    assert(rule_pins_v4(args, j, name, hit(j)->0));
                }
            }
            assert(last_from(hit, 0, i, len, address));
        }
    }
}

/// Of the rules on the command line, the last one that pins an IPv6 address for a
/// domain says which one it has, and it has it for good.
pub proof fn law_last_rule_pins_v6(args: Seq<Seq<char>>, name: Seq<char>, address: u128)
    ensures
        config::meaning(args, 0, false, Map::empty()) matches Ok(Some((_, table))) ==> {
            &&& table.contains_key(name) && table[name].v6 == Some(address) <==> exists|i: int|
                0 <= i < args.len() && #[trigger] rule_pins_v6(args, i, name, address) && forall|
                    j: int,
                    other: u128,
                |
                    i < j < args.len() ==> !#[trigger] rule_pins_v6(args, j, name, other)
            &&& table.contains_key(name) ==> table[name].expires_at is None
        },
{
    let none = Map::<Seq<char>, TestRedirect>::empty();
    if let Ok(Some((_, table))) = config::meaning(args, 0, false, none) {
        let hit = |k: int| hit_at(args, k, name).v6;
        let len = args.len() as int;
        lemma_table_walk(args, 0, false, none, name);
        lemma_result_from(hit, 0, len, None, address);
        assert forall|k: int, some: u128| #[trigger]
            rule_pins_v6(args, k, name, some) <==> hit(k) == Some(some) by {
            lemma_hit_v6(args, k, name, some);
        }
        let found = redirects::redirect_or_none(table, name).v6;
        assert(found == result_from(hit, 0, len, None));
        if found == Some(address) {
            let i = choose|i: int| last_from(hit, 0, i, len, address);
            assert(rule_pins_v6(args, i, name, address));
            assert forall|j: int, other: u128| i < j < len implies !#[trigger] rule_pins_v6(
                args,
                j,
                name,
                other,
            ) by {
                assert(hit(j) is None);
            }
        }
        if exists|i: int|
            0 <= i < len && #[trigger] rule_pins_v6(args, i, name, address) && forall|
                j: int,
                other: u128,
            |
                i < j < len ==> !#[trigger] rule_pins_v6(args, j, name, other) {
            let i = choose|i: int|
                0 <= i < len && #[trigger] rule_pins_v6(args, i, name, address) && forall|
                    j: int,
                    other: u128,
                |
                    i < j < len ==> !#[trigger] rule_pins_v6(args, j, name, other);
            assert forall|j: int| i < j < len implies #[trigger] hit(j) is None by {
                if hit(j) is Some {
                    assert(rule_pins_v6(args, j, name, hit(j)->0));
                }
            }
            assert(last_from(hit, 0, i, len, address));
        }
    }
}

} // verus!
