//! Redirects: domains whose answers are pinned to a verified address.

use crate::address;
use crate::address::{parse_ipv4, parse_ipv6};
use crate::text;
use crate::text::{chars_of, find, split, split_words, string_of, to_lower, trim, trim_end_dots};
use vstd::prelude::*;
use vstd::slice::slice_subrange;
use vstd::utf8;

verus! {

/// The longest domain name, in bytes.
pub const MAX_DOMAIN: usize = 253;
/// The longest label of a domain name, in bytes.
pub const MAX_LABEL: usize = 63;

/// A point in time as the bits of a double: seconds since the epoch.
#[derive(Clone, Copy, Debug)]
pub struct Timestamp {
    pub bits: u64,
}

impl Timestamp {
    /// Whether the bits stand for no number.
    pub open spec fn is_nan(self) -> bool {
        self.bits % 0x8000_0000_0000_0000 > 0x7ff0_0000_0000_0000
    }

    /// A number that orders the points in time: the sign bit turns the order of
    /// the other bits round, and the two zeros are one.
    pub open spec fn rank(self) -> int {
        if self.bits >= 0x8000_0000_0000_0000 {
            0x8000_0000_0000_0000 - self.bits
        } else {
            self.bits as int
        }
    }

    /// Whether this point is the other or comes before it.
    pub open spec fn not_after(self, other: Timestamp) -> bool {
        !self.is_nan() && !other.is_nan() && self.rank() <= other.rank()
    }

    /// Whether this point comes after the other.
    pub open spec fn later(self, other: Timestamp) -> bool {
        !self.is_nan() && !other.is_nan() && self.rank() > other.rank()
    }

    /// Whether the two are the same point.
    pub open spec fn equals(self, other: Timestamp) -> bool {
        !self.is_nan() && !other.is_nan() && self.rank() == other.rank()
    }

    fn comparable(self, other: Timestamp) -> (answer: bool)
        ensures
            answer == (!self.is_nan() && !other.is_nan()),
    {
        self.bits % 0x8000_0000_0000_0000 <= 0x7ff0_0000_0000_0000 && other.bits
            % 0x8000_0000_0000_0000 <= 0x7ff0_0000_0000_0000
    }

    fn ordinal(self) -> (rank: i128)
        ensures
            rank == self.rank(),
    {
        if self.bits >= 0x8000_0000_0000_0000 {
            0x8000_0000_0000_0000i128 - self.bits as i128
        } else {
            self.bits as i128
        }
    }

    /// Whether this point is the other or comes before it.
    pub fn is_not_after(self, other: Timestamp) -> (answer: bool)
        ensures
            answer == self.not_after(other),
    {
        self.comparable(other) && self.ordinal() <= other.ordinal()
    }

    /// Whether this point comes after the other.
    pub fn is_later(self, other: Timestamp) -> (answer: bool)
        ensures
            answer == self.later(other),
    {
        self.comparable(other) && self.ordinal() > other.ordinal()
    }

    /// Whether the two are the same point.
    pub fn is_equal(self, other: Timestamp) -> (answer: bool)
        ensures
            answer == self.equals(other),
    {
        self.comparable(other) && self.ordinal() == other.ordinal()
    }
}

/// The addresses that a domain is pinned to, and until when.
#[derive(Clone, Copy, Debug)]
pub struct TestRedirect {
    pub v4: Option<u32>,
    pub v6: Option<u128>,
    pub expires_at: Option<Timestamp>,
}

impl TestRedirect {
    /// A redirect that pins nothing.
    pub open spec fn none() -> TestRedirect {
        TestRedirect { v4: None, v6: None, expires_at: None }
    }

    /// Whether the redirect has no expiry or one that is still to come.
    pub open spec fn live(self, now: Timestamp) -> bool {
        match self.expires_at {
            Some(expires) => expires.later(now),
            None => true,
        }
    }

    /// Whether the two pin the same addresses until the same time. An expiry
    /// that is no number is not equal to anything.
    pub open spec fn equals(self, other: TestRedirect) -> bool {
        &&& self.v4 == other.v4
        &&& self.v6 == other.v6
        &&& match (self.expires_at, other.expires_at) {
            (Some(a), Some(b)) => a.equals(b),
            (None, None) => true,
            _ => false,
        }
    }

    /// Whether the redirect is in force.
    pub fn is_live(&self, now: Timestamp) -> (answer: bool)
        ensures
            answer == self.live(now),
    {
        match self.expires_at {
            Some(expires) => expires.is_later(now),
            None => true,
        }
    }

    /// Whether the two pin the same addresses until the same time.
    pub fn is_equal(&self, other: &TestRedirect) -> (answer: bool)
        ensures
            answer == self.equals(*other),
    {
        let v4: bool = match (self.v4, other.v4) {
            (Some(a), Some(b)) => a == b,
            (None, None) => true,
            _ => false,
        };
        let v6: bool = match (self.v6, other.v6) {
            (Some(a), Some(b)) => a == b,
            (None, None) => true,
            _ => false,
        };
        let expires: bool = match (self.expires_at, other.expires_at) {
            (Some(a), Some(b)) => a.is_equal(b),
            (None, None) => true,
            _ => false,
        };
        v4 && v6 && expires
    }
}

impl Default for TestRedirect {
    fn default() -> (redirect: TestRedirect)
        ensures
            redirect == TestRedirect::none(),
    {
        TestRedirect { v4: None, v6: None, expires_at: None }
    }
}

/// The redirect of each domain that has one.
pub struct Redirects {
    pub entries: Vec<(String, TestRedirect)>,
}

/// The table that a list of entries stands for.
pub open spec fn table_of(entries: Seq<(String, TestRedirect)>) -> Map<Seq<char>, TestRedirect>
    decreases entries.len(),
{
    if entries.len() == 0 {
        Map::empty()
    } else {
        table_of(entries.drop_last()).insert(entries.last().0@, entries.last().1)
    }
}

impl View for Redirects {
    type V = Map<Seq<char>, TestRedirect>;

    open spec fn view(&self) -> Map<Seq<char>, TestRedirect> {
        table_of(self.entries@)
    }
}

/// Whether two tables hold equal redirects for the same domains.
pub open spec fn same_table(
    a: Map<Seq<char>, TestRedirect>,
    b: Map<Seq<char>, TestRedirect>,
) -> bool {
    &&& a.dom() =~= b.dom()
    &&& forall|domain: Seq<char>| #[trigger] a.contains_key(domain) ==> a[domain].equals(b[domain])
}

proof fn lemma_table(entries: Seq<(String, TestRedirect)>)
    ensures
        table_of(entries).dom().finite(),
        forall|key: Seq<char>| #[trigger]
            table_of(entries).contains_key(key) <==> exists|i: int|
                0 <= i < entries.len() && (#[trigger] entries[i]).0@ == key,
        unique(entries) ==> table_of(entries).len() == entries.len() && forall|i: int|
            0 <= i < entries.len() ==> table_of(entries).contains_key((#[trigger] entries[i]).0@)
                && table_of(entries)[entries[i].0@] == entries[i].1,
    decreases entries.len(),
{
    if entries.len() > 0 {
        let init = entries.drop_last();
        lemma_table(init);
        assert forall|key: Seq<char>| #[trigger] table_of(entries).contains_key(key) <==> exists|
            i: int,
        | 0 <= i < entries.len() && (#[trigger] entries[i]).0@ == key by {
            if key == entries.last().0@ {
                assert(entries[entries.len() - 1].0@ == key);
            }
            if table_of(init).contains_key(key) {
                let i = choose|i: int| 0 <= i < init.len() && (#[trigger] init[i]).0@ == key;
                assert(entries[i].0@ == key);
            }
            if exists|i: int| 0 <= i < entries.len() && (#[trigger] entries[i]).0@ == key {
                let i = choose|i: int| 0 <= i < entries.len() && (#[trigger] entries[i]).0@ == key;
                if i < init.len() {
                    assert(init[i].0@ == key);
                }
            }
        }
        if unique(entries) {
            assert(unique(init)) by {
                assert forall|i: int, j: int| 0 <= i < j < init.len() implies (
                #[trigger] init[i]).0@ != (#[trigger] init[j]).0@ by {
                    assert(entries[i] == init[i] && entries[j] == init[j]);
                }
            }
            if table_of(init).contains_key(entries.last().0@) {
                let i = choose|i: int|
                    0 <= i < init.len() && (#[trigger] init[i]).0@ == entries.last().0@;
                assert(entries[i].0@ == entries[entries.len() - 1].0@);
            }
            assert forall|i: int| 0 <= i < entries.len() implies table_of(entries).contains_key(
                (#[trigger] entries[i]).0@,
            ) && table_of(entries)[entries[i].0@] == entries[i].1 by {
                if i < init.len() {
                    assert(init[i] == entries[i]);
                    assert(entries[i].0@ != entries[entries.len() - 1].0@);
                }
            }
        }
    } else {
        assert(table_of(entries) == Map::<Seq<char>, TestRedirect>::empty());
    }
}

/// Whether no domain has two entries.
pub open spec fn unique(entries: Seq<(String, TestRedirect)>) -> bool {
    forall|i: int, j: int|
        0 <= i < j < entries.len() ==> (#[trigger] entries[i]).0@ != (#[trigger] entries[j]).0@
}

impl Redirects {
    /// No domain has two entries.
    pub open spec fn wf(self) -> bool {
        unique(self.entries@)
    }

    /// An empty table.
    pub fn new() -> (table: Redirects)
        ensures
            table.wf(),
            table@ == Map::<Seq<char>, TestRedirect>::empty(),
    {
        Redirects { entries: Vec::new() }
    }

    /// How many domains have a redirect.
    pub fn len(&self) -> (count: usize)
        requires
            self.wf(),
        ensures
            count == self@.len(),
            self@.dom().finite(),
    {
        proof {
            lemma_table(self.entries@);
        }
        self.entries.len()
    }

    /// Whether no domain has a redirect.
    pub fn is_empty(&self) -> (answer: bool)
        ensures
            answer == (self@ == Map::<Seq<char>, TestRedirect>::empty()),
    {
        proof {
            lemma_table(self.entries@);
            if self.entries@.len() > 0 {
                assert(self@.contains_key(self.entries@[0].0@));
            }
        }
        self.entries.len() == 0
    }

    fn position(&self, domain: &String) -> (at: Option<usize>)
        ensures
            match at {
                Some(at) => at < self.entries@.len() && self.entries@[at as int].0@ == domain@,
                None => forall|i: int|
                    0 <= i < self.entries@.len() ==> (#[trigger] self.entries@[i]).0@ != domain@,
            },
    {
        let mut at: usize = 0;
        while at < self.entries.len()
            invariant
                at <= self.entries@.len(),
                forall|i: int| 0 <= i < at ==> (#[trigger] self.entries@[i]).0@ != domain@,
            decreases self.entries@.len() - at,
        {
            if self.entries[at].0 == *domain {
                return Some(at);
            }
            at = at + 1;
        }
        None
    }

    /// The redirect of `domain`.
    pub fn get(&self, domain: &String) -> (redirect: Option<TestRedirect>)
        requires
            self.wf(),
        ensures
            redirect == self@.get(domain@),
    {
        proof {
            lemma_table(self.entries@);
        }
        match self.position(domain) {
            Some(at) => Some(self.entries[at].1),
            None => None,
        }
    }

    /// Sets the redirect of `domain`.
    pub fn set(&mut self, domain: String, redirect: TestRedirect)
        requires
            old(self).wf(),
        ensures
            final(self).wf(),
            final(self)@ == old(self)@.insert(domain@, redirect),
    {
        let ghost before = self.entries@;
        proof {
            lemma_table(before);
        }
        match self.position(&domain) {
            Some(at) => {
                self.entries.set(at, (domain, redirect));
                proof {
                    let now = self.entries@;
                    assert forall|i: int, j: int| 0 <= i < j < now.len() implies (
                    #[trigger] now[i]).0@ != (#[trigger] now[j]).0@ by {
                        assert(before[i].0@ != before[j].0@);
                    }
                    lemma_table(now);
                    lemma_same_keys(before, now, at as int);
                }
            },
            None => {
                self.entries.push((domain, redirect));
                proof {
                    let now = self.entries@;
                    assert(now.drop_last() == before);
                    assert forall|i: int, j: int| 0 <= i < j < now.len() implies (
                    #[trigger] now[i]).0@ != (#[trigger] now[j]).0@ by {
                        if j < before.len() {
                            assert(before[i].0@ != before[j].0@);
                        } else {
                            assert(before[i].0@ != domain@);
                        }
                    }
                }
            },
        }
    }

    /// Whether two tables hold equal redirects for the same domains.
    pub fn is_equal(&self, other: &Redirects) -> (answer: bool)
        requires
            self.wf(),
            other.wf(),
        ensures
            answer == same_table(self@, other@),
    {
        proof {
            lemma_table(self.entries@);
            lemma_table(other.entries@);
        }
        if self.entries.len() != other.entries.len() {
            return false;
        }
        let mut at: usize = 0;
        while at < self.entries.len()
            invariant
                at <= self.entries@.len(),
                self.wf(),
                other.wf(),
                forall|i: int|
                    0 <= i < at ==> other@.contains_key((#[trigger] self.entries@[i]).0@)
                        && self.entries@[i].1.equals(other@[self.entries@[i].0@]),
            decreases self.entries@.len() - at,
        {
            proof {
                lemma_table(self.entries@);
                assert(self@.contains_key(self.entries@[at as int].0@));
            }
            match other.get(&self.entries[at].0) {
                Some(redirect) => {
                    if !self.entries[at].1.is_equal(&redirect) {
                        return false;
                    }
                },
                None => {
                    return false;
                },
            }
            at = at + 1;
        }
        proof {
            assert(self@.dom().subset_of(other@.dom())) by {
                assert forall|key: Seq<char>| #[trigger]
                    self@.dom().contains(key) implies other@.dom().contains(key) by {
                    assert(self@.contains_key(key));
                    let i = choose|i: int|
                        0 <= i < self.entries@.len() && (#[trigger] self.entries@[i]).0@ == key;
                }
            }
            vstd::set_lib::lemma_subset_equality(self@.dom(), other@.dom());
            assert forall|key: Seq<char>| #[trigger] self@.contains_key(key) implies self@[key].equals(
                other@[key],
            ) by {
                let i = choose|i: int|
                    0 <= i < self.entries@.len() && (#[trigger] self.entries@[i]).0@ == key;
            }
        }
        true
    }
}

proof fn lemma_same_keys(
    before: Seq<(String, TestRedirect)>,
    now: Seq<(String, TestRedirect)>,
    at: int,
)
    requires
        0 <= at < before.len(),
        now.len() == before.len(),
        unique(before),
        unique(now),
        now[at].0@ == before[at].0@,
        forall|i: int| 0 <= i < now.len() && i != at ==> now[i] == before[i],
    ensures
        table_of(now) == table_of(before).insert(now[at].0@, now[at].1),
{
    lemma_table(before);
    lemma_table(now);
    let wanted = table_of(before).insert(now[at].0@, now[at].1);
    assert forall|key: Seq<char>| table_of(now).contains_key(key) <==> wanted.contains_key(key) by {
        if table_of(now).contains_key(key) {
            let i = choose|i: int| 0 <= i < now.len() && (#[trigger] now[i]).0@ == key;
            assert(before[i].0@ == key);
        }
        if wanted.contains_key(key) {
            if table_of(before).contains_key(key) {
                let i = choose|i: int| 0 <= i < before.len() && (#[trigger] before[i]).0@ == key;
                assert(now[i].0@ == key);
            } else {
                assert(now[at].0@ == key);
            }
        }
    }
    assert forall|key: Seq<char>| #[trigger] table_of(now).contains_key(key) implies table_of(
        now,
    )[key] == wanted[key] by {
        let i = choose|i: int| 0 <= i < now.len() && (#[trigger] now[i]).0@ == key;
        if i != at {
            assert(before[i] == now[i]);
            assert(before[i].0@ != before[at].0@);
        }
    }
    assert(table_of(now) =~= wanted);
}

/// What is wrong with a setting.
#[derive(Clone, Copy, Debug, PartialEq, Eq)]
pub enum ErrorKind {
    /// A redirect option without a rule behind it.
    MissingRule,
    /// A rule without an equals sign.
    InvalidRedirect,
    /// A domain that cannot be one.
    InvalidDomain,
    /// An address that is neither IPv4 nor IPv6.
    InvalidAddress,
    /// An argument that means nothing.
    UnknownArgument,
    /// A redirect outside test mode.
    RedirectWithoutTest,
}

/// A setting that was refused, with the text at fault.
#[derive(Debug)]
pub struct ConfigError {
    pub kind: ErrorKind,
    pub text: String,
}

impl ConfigError {
    /// Whether the error is of this kind and quotes this text.
    pub open spec fn says(self, kind: ErrorKind, text: Seq<char>) -> bool {
        self.kind == kind && self.text@ == text
    }
}

/// How many bytes `s` takes as UTF-8.
pub open spec fn byte_len(s: Seq<char>) -> nat {
    utf8::encode_utf8(s).len()
}

/// Whether `label` can stand between the dots of a domain name.
pub open spec fn valid_label(label: Seq<char>) -> bool {
    label.len() > 0 && byte_len(label) <= MAX_LABEL
}

/// The domain as the tables list it: without white space round it, without the
/// dots at its end, in lower case.
pub open spec fn canonical(domain: Seq<char>) -> Seq<char> {
    text::lowered(text::without_end_dots(text::trimmed(domain)))
}

/// Whether `name` has the size of a domain name, and each of its labels too.
pub open spec fn valid_domain(name: Seq<char>) -> bool {
    let labels = text::pieces(name, '.');
    &&& name.len() > 0
    &&& byte_len(name) <= MAX_DOMAIN
    &&& forall|i: int| 0 <= i < labels.len() ==> valid_label(#[trigger] labels[i])
}

/// The canonical form of `domain`, where it is a valid name.
pub open spec fn normalized(domain: Seq<char>) -> Option<Seq<char>> {
    if valid_domain(canonical(domain)) {
        Some(canonical(domain))
    } else {
        None
    }
}

/// Puts a domain name in the form in which the tables list it.
pub fn normalize_domain(domain: &str) -> (name: Result<String, ConfigError>)
    ensures
        match name {
            Ok(name) => normalized(domain@) == Some(name@),
            Err(error) => normalized(domain@) is None && error.says(
                ErrorKind::InvalidDomain,
                domain@,
            ),
        },
{
    let given: Vec<char> = chars_of(domain);
    let name: Vec<char> = to_lower(trim_end_dots(trim(given.as_slice())));
    let text: String = string_of(name.as_slice());
    let labels: Vec<Vec<char>> = split(name.as_slice(), '.');
    let mut valid: bool = name.len() > 0 && text.as_str().as_bytes().len() <= MAX_DOMAIN;
    let ghost whole = text::texts(labels@);
    let mut at: usize = 0;
    while at < labels.len()
        invariant
            at <= labels@.len(),
            whole == text::texts(labels@),
            valid == (name@.len() > 0 && byte_len(name@) <= MAX_DOMAIN && forall|i: int|
                0 <= i < at ==> valid_label(#[trigger] whole[i])),
        decreases labels@.len() - at,
    {
        let label: String = string_of(labels[at].as_slice());
        assert(whole[at as int] == label@);
        if labels[at].len() == 0 || label.as_str().as_bytes().len() > MAX_LABEL {
            assert(!valid_label(whole[at as int]));
            valid = false;
        }
        at = at + 1;
    }
    if valid {
        Ok(text)
    } else {
        Err(ConfigError { kind: ErrorKind::InvalidDomain, text: string_of(given.as_slice()) })
    }
}

/// The text in front of and behind the first equals sign.
pub open spec fn rule_parts(rule: Seq<char>) -> Option<(Seq<char>, Seq<char>)> {
    match text::place_of(rule, '=') {
        Some(at) => Some((rule.take(at), rule.skip(at + 1))),
        None => None,
    }
}

/// The redirect that `table` has for `name`, or one that pins nothing.
pub open spec fn redirect_or_none(
    table: Map<Seq<char>, TestRedirect>,
    name: Seq<char>,
) -> TestRedirect {
    if table.contains_key(name) {
        table[name]
    } else {
        TestRedirect::none()
    }
}

/// What is wrong with `rule`, which reads DOMAIN=IP, and the text at fault.
pub open spec fn rule_fault(rule: Seq<char>) -> Option<(ErrorKind, Seq<char>)> {
    match rule_parts(rule) {
        None => Some((ErrorKind::InvalidRedirect, rule)),
        Some((domain, ip)) => if normalized(domain) is None {
            Some((ErrorKind::InvalidDomain, domain))
        } else if address::ipv4_of(ip) is None && address::ipv6_of(ip) is None {
            Some((ErrorKind::InvalidAddress, ip))
        } else {
            None
        },
    }
}

/// The table after `rule`. An address that cannot be read still gives its
/// domain an entry.
pub open spec fn table_with(
    table: Map<Seq<char>, TestRedirect>,
    rule: Seq<char>,
) -> Map<Seq<char>, TestRedirect> {
    match rule_parts(rule) {
        None => table,
        Some((domain, ip)) => match normalized(domain) {
            None => table,
            Some(name) => {
                let known = redirect_or_none(table, name);
                let pinned = if address::ipv4_of(ip) is Some {
                    TestRedirect { v4: address::ipv4_of(ip), ..known }
                } else if address::ipv6_of(ip) is Some {
                    TestRedirect { v6: address::ipv6_of(ip), ..known }
                } else {
                    known
                };
                table.insert(name, pinned)
            },
        },
    }
}

/// Enters the rule DOMAIN=IP into the table. A domain may have one address of
/// each family.
pub fn add_redirect(rules: &mut Redirects, rule: &str) -> (done: Result<(), ConfigError>)
    requires
        old(rules).wf(),
    ensures
        final(rules).wf(),
        final(rules)@ == table_with(old(rules)@, rule@),
        match done {
            Ok(()) => rule_fault(rule@) is None,
            Err(error) => rule_fault(rule@) matches Some((kind, text)) && error.says(kind, text),
        },
{
    let chars: Vec<char> = chars_of(rule);
    let s: &[char] = chars.as_slice();
    let len: usize = s.len();
    let at: usize = match find(s, '=') {
        Some(at) => at,
        None => {
            return Err(ConfigError { kind: ErrorKind::InvalidRedirect, text: string_of(s) });
        },
    };
    let domain: String = string_of(slice_subrange(s, 0, at));
    let ip: &[char] = slice_subrange(s, at + 1, len);
    assert(domain@ == rule@.take(at as int));
    assert(ip@ == rule@.skip(at + 1));
    let name: String = match normalize_domain(domain.as_str()) {
        Ok(name) => name,
        Err(error) => {
            return Err(error);
        },
    };
    let mut target: TestRedirect = match rules.get(&name) {
        Some(known) => known,
        None => TestRedirect::default(),
    };
    let mut fault: bool = false;
    if let Some(address) = parse_ipv4(ip) {
        target.v4 = Some(address);
    } else if let Some(address) = parse_ipv6(ip) {
        target.v6 = Some(address);
    } else {
        fault = true;
    }
    rules.set(name, target);
    if fault {
        Err(ConfigError { kind: ErrorKind::InvalidAddress, text: string_of(ip) })
    } else {
        Ok(())
    }
}

/// What became of a line of the file of temporary redirects.
#[derive(Clone, Copy, Debug, PartialEq, Eq)]
pub enum LineOutcome {
    /// Nothing on it, or a comment.
    Blank,
    /// A rule without an expiry.
    MissingExpiry,
    /// More than a rule and an expiry.
    ExtraFields,
    /// An expiry that is no number.
    BadExpiry,
    /// An expiry that is not in the future.
    Expired,
    /// A rule that was refused.
    Refused(ErrorKind),
    /// A rule in force.
    Added,
}

/// Whether the line, already trimmed, holds nothing to read.
pub open spec fn ignorable(line: Seq<char>) -> bool {
    line.len() == 0 || line[0] == '#'
}

/// The expiry field of a line that has a rule, an expiry and nothing more.
pub open spec fn expiry_field(line: Seq<char>) -> Option<Seq<char>> {
    let words = text::words(text::trimmed(line));
    if !ignorable(text::trimmed(line)) && words.len() == 2 {
        Some(words[1])
    } else {
        None
    }
}

/// What becomes of a line whose expiry field reads as `expiry`.
pub open spec fn line_outcome(
    line: Seq<char>,
    expiry: Option<Timestamp>,
    now: Timestamp,
) -> LineOutcome {
    let words = text::words(text::trimmed(line));
    if ignorable(text::trimmed(line)) || words.len() == 0 {
        LineOutcome::Blank
    } else if words.len() == 1 {
        LineOutcome::MissingExpiry
    } else if words.len() > 2 {
        LineOutcome::ExtraFields
    } else {
        match expiry {
            None => LineOutcome::BadExpiry,
            Some(expires) => if expires.not_after(now) {
                LineOutcome::Expired
            } else {
                match rule_fault(words[0]) {
                    Some((kind, _)) => LineOutcome::Refused(kind),
                    None => LineOutcome::Added,
                }
            },
        }
    }
}

/// The table after a line whose expiry field reads as `expiry`. A rule in force
/// sets the expiry of its whole entry.
pub open spec fn table_after_line(
    table: Map<Seq<char>, TestRedirect>,
    line: Seq<char>,
    expiry: Option<Timestamp>,
    now: Timestamp,
) -> Map<Seq<char>, TestRedirect> {
    let rule = text::words(text::trimmed(line))[0];
    match line_outcome(line, expiry, now) {
        LineOutcome::Refused(_) => table_with(table, rule),
        LineOutcome::Added => match rule_parts(rule) {
            Some((domain, _)) => {
                let name = normalized(domain)->0;
                table_with(table, rule).insert(
                    name,
                    TestRedirect { expires_at: expiry, ..table_with(table, rule)[name] },
                )
            },
            None => table,
        },
        _ => table,
    }
}

/// The table after the first `count` lines.
pub open spec fn table_after(
    lines: Seq<Seq<char>>,
    expiries: Seq<Option<Timestamp>>,
    now: Timestamp,
    count: nat,
) -> Map<Seq<char>, TestRedirect>
    decreases count,
{
    if count == 0 {
        Map::empty()
    } else {
        table_after_line(
            table_after(lines, expiries, now, (count - 1) as nat),
            lines[count - 1],
            expiries[count - 1],
            now,
        )
    }
}

/// The lines of a text.
pub open spec fn lines_of(text: Seq<char>) -> Seq<Seq<char>> {
    text::pieces(text, '\n')
}

/// Reads one line of the file of temporary redirects into the table.
fn apply_line(
    table: &mut Redirects,
    line: &[char],
    expiry: Option<Timestamp>,
    now: Timestamp,
) -> (outcome: LineOutcome)
    requires
        old(table).wf(),
    ensures
        final(table).wf(),
        outcome == line_outcome(line@, expiry, now),
        final(table)@ == table_after_line(old(table)@, line@, expiry, now),
{
    let line: &[char] = trim(line);
    if line.len() == 0 || line[0] == '#' {
        return LineOutcome::Blank;
    }
    let fields: Vec<Vec<char>> = split_words(line);
    let ghost words = text::texts(fields@);
    assert(words.len() == fields@.len());
    if fields.len() == 0 {
        return LineOutcome::Blank;
    }
    if fields.len() == 1 {
        return LineOutcome::MissingExpiry;
    }
    if fields.len() > 2 {
        return LineOutcome::ExtraFields;
    }
    let expires: Timestamp = match expiry {
        Some(expires) => expires,
        None => {
            return LineOutcome::BadExpiry;
        },
    };
    if expires.is_not_after(now) {
        return LineOutcome::Expired;
    }
    let rule: String = string_of(fields[0].as_slice());
    assert(rule@ == words[0]);
    if let Err(error) = add_redirect(table, rule.as_str()) {
        return LineOutcome::Refused(error.kind);
    }
    let s: &[char] = fields[0].as_slice();
    if let Some(at) = find(s, '=') {
        let domain: String = string_of(slice_subrange(s, 0, at));
        assert(domain@ == rule@.take(at as int));
        if let Ok(name) = normalize_domain(domain.as_str()) {
            if let Some(redirect) = table.get(&name) {
                let mut redirect: TestRedirect = redirect;
                redirect.expires_at = Some(expires);
                table.set(name, redirect);
            }
        }
    }
    LineOutcome::Added
}

/// The expiry field of each line, for the lines that have a rule, an expiry and
/// nothing more.
pub fn expiry_texts(text: &str) -> (fields: Vec<Option<String>>)
    ensures
        fields@.len() == lines_of(text@).len(),
        forall|i: int|
            #![trigger fields@[i]]
            0 <= i < fields@.len() ==> match fields@[i] {
                Some(field) => expiry_field(lines_of(text@)[i]) == Some(field@),
                None => expiry_field(lines_of(text@)[i]) is None,
            },
{
    let chars: Vec<char> = chars_of(text);
    let lines: Vec<Vec<char>> = split(chars.as_slice(), '\n');
    let ghost whole = lines_of(text@);
    let mut fields: Vec<Option<String>> = Vec::new();
    assert(whole == text::texts(lines@));
    while fields.len() < lines.len()
        invariant
            fields@.len() <= lines@.len(),
            whole == text::texts(lines@),
            forall|i: int|
                #![trigger fields@[i]]
                0 <= i < fields@.len() ==> match fields@[i] {
                    Some(field) => expiry_field(whole[i]) == Some(field@),
                    None => expiry_field(whole[i]) is None,
                },
        decreases lines@.len() - fields@.len(),
    {
        let at: usize = fields.len();
        let line: &[char] = trim(lines[at].as_slice());
        assert(line@ == text::trimmed(whole[at as int]));
        if line.len() == 0 || line[0] == '#' {
            fields.push(None);
        } else {
            let words: Vec<Vec<char>> = split_words(line);
            assert(text::texts(words@).len() == words@.len());
            if words.len() == 2 {
                assert(text::texts(words@)[1] == words@[1]@);
                fields.push(Some(string_of(words[1].as_slice())));
            } else {
                fields.push(None);
            }
        }
    }
    fields
}

/// Reads the file of temporary redirects: on each line a rule and an expiry.
/// `expiries` holds what the expiry field of each line reads as. Gives the
/// table of the rules that are in force, and what became of each line.
pub fn parse_temporary_redirects(
    text: &str,
    expiries: &Vec<Option<Timestamp>>,
    now: Timestamp,
) -> (read: (Redirects, Vec<LineOutcome>))
    requires
        expiries@.len() == lines_of(text@).len(),
    ensures
        read.0.wf(),
        read.0@ == table_after(lines_of(text@), expiries@, now, lines_of(text@).len()),
        read.1@ == Seq::new(
            lines_of(text@).len(),
            |i: int| line_outcome(lines_of(text@)[i], expiries@[i], now),
        ),
{
    let chars: Vec<char> = chars_of(text);
    let lines: Vec<Vec<char>> = split(chars.as_slice(), '\n');
    let ghost whole = lines_of(text@);
    let ghost all = Seq::new(whole.len(), |i: int| line_outcome(whole[i], expiries@[i], now));
    let mut table: Redirects = Redirects::new();
    let mut outcomes: Vec<LineOutcome> = Vec::new();
    assert(whole == text::texts(lines@));
    let mut at: usize = 0;
    while at < lines.len()
        invariant
            at <= lines@.len() == expiries@.len(),
            whole == text::texts(lines@),
            all == Seq::new(whole.len(), |i: int| line_outcome(whole[i], expiries@[i], now)),
            table.wf(),
            table@ == table_after(whole, expiries@, now, at as nat),
            outcomes@ == all.take(at as int),
        decreases lines@.len() - at,
    {
        assert(whole[at as int] == lines@[at as int]@);
        let outcome: LineOutcome = apply_line(
            &mut table,
            lines[at].as_slice(),
            expiries[at],
            now,
        );
        outcomes.push(outcome);
        at = at + 1;
        assert(outcomes@ =~= all.take(at as int));
    }
    assert(all.take(at as int) == all);
    (table, outcomes)
}

/// In the table of the file of temporary redirects, an expiry is never past, and
/// an entry without one pins no address.
pub proof fn law_temporary_redirects_expire(
    lines: Seq<Seq<char>>,
    expiries: Seq<Option<Timestamp>>,
    now: Timestamp,
    count: nat,
    name: Seq<char>,
)
    requires
        lines.len() == expiries.len(),
        count <= lines.len(),
        table_after(lines, expiries, now, count).contains_key(name),
    ensures
        match table_after(lines, expiries, now, count)[name].expires_at {
            Some(expires) => !expires.not_after(now),
            None => {
                &&& table_after(lines, expiries, now, count)[name].v4 is None
                &&& table_after(lines, expiries, now, count)[name].v6 is None
            },
        },
    decreases count,
{
    if count > 0 {
        let before = table_after(lines, expiries, now, (count - 1) as nat);
        if before.contains_key(name) {
            law_temporary_redirects_expire(lines, expiries, now, (count - 1) as nat, name);
        }
    }
}

/// Lines that are refused pin nothing: without a single line in force, no entry
/// of the file of temporary redirects has an address.
pub proof fn law_only_lines_in_force_pin(
    lines: Seq<Seq<char>>,
    expiries: Seq<Option<Timestamp>>,
    now: Timestamp,
    count: nat,
    name: Seq<char>,
)
    requires
        lines.len() == expiries.len(),
        count <= lines.len(),
        forall|i: int|
            0 <= i < count ==> line_outcome(#[trigger] lines[i], expiries[i], now)
                != LineOutcome::Added,
        table_after(lines, expiries, now, count).contains_key(name),
    ensures
        table_after(lines, expiries, now, count)[name] == TestRedirect::none(),
    decreases count,
{
    if count > 0 {
        let before = table_after(lines, expiries, now, (count - 1) as nat);
        assert(line_outcome(lines[count - 1], expiries[count - 1], now) != LineOutcome::Added);
        if before.contains_key(name) {
            law_only_lines_in_force_pin(lines, expiries, now, (count - 1) as nat, name);
        }
    }
}

/// What the expiry fields of the lines read as, where `reads` tells what a field
/// reads as.
pub open spec fn expiries_of(
    lines: Seq<Seq<char>>,
    reads: spec_fn(Seq<char>) -> Option<Timestamp>,
) -> Seq<Option<Timestamp>> {
    Seq::new(
        lines.len(),
        |i: int|
            match expiry_field(lines[i]) {
                Some(field) => reads(field),
                None => None,
            },
    )
}

/// The table of a list of lines.
pub open spec fn table_of_lines(
    lines: Seq<Seq<char>>,
    reads: spec_fn(Seq<char>) -> Option<Timestamp>,
    now: Timestamp,
) -> Map<Seq<char>, TestRedirect> {
    table_after(lines, expiries_of(lines, reads), now, lines.len())
}

/// The table of a file of temporary redirects.
pub open spec fn table_of_file(
    file: Seq<char>,
    reads: spec_fn(Seq<char>) -> Option<Timestamp>,
    now: Timestamp,
) -> Map<Seq<char>, TestRedirect> {
    table_of_lines(lines_of(file), reads, now)
}

/// Whether a line is passed over: it is blank or a comment, has not exactly a
/// rule and an expiry, or has an expiry that is no number or not in the future.
pub open spec fn passed_over(
    line: Seq<char>,
    reads: spec_fn(Seq<char>) -> Option<Timestamp>,
    now: Timestamp,
) -> bool {
    let outcome = line_outcome(line, expiries_of(seq![line], reads)[0], now);
    ||| outcome == LineOutcome::Blank
    ||| outcome == LineOutcome::MissingExpiry
    ||| outcome == LineOutcome::ExtraFields
    ||| outcome == LineOutcome::BadExpiry
    ||| outcome == LineOutcome::Expired
}

/// The lines that are not passed over.
pub open spec fn lines_that_count(
    lines: Seq<Seq<char>>,
    reads: spec_fn(Seq<char>) -> Option<Timestamp>,
    now: Timestamp,
) -> Seq<Seq<char>>
    decreases lines.len(),
{
    if lines.len() == 0 {
        Seq::empty()
    } else {
        let before = lines_that_count(lines.drop_last(), reads, now);
        if passed_over(lines.last(), reads, now) {
            before
        } else {
            before.push(lines.last())
        }
    }
}

/// A file without the lines that are passed over.
pub open spec fn without_passed_over(
    file: Seq<char>,
    reads: spec_fn(Seq<char>) -> Option<Timestamp>,
    now: Timestamp,
) -> Seq<char> {
    text::joined(lines_that_count(lines_of(file), reads, now), '\n')
}

proof fn lemma_table_of_lines(
    lines: Seq<Seq<char>>,
    reads: spec_fn(Seq<char>) -> Option<Timestamp>,
    now: Timestamp,
    count: nat,
)
    requires
        count <= lines.len(),
    ensures
        table_after(lines, expiries_of(lines, reads), now, count) == table_of_lines(
            lines.take(count as int),
            reads,
            now,
        ),
    decreases count,
{
    let short = lines.take(count as int);
    if count > 0 {
        lemma_table_of_lines(lines, reads, now, (count - 1) as nat);
        lemma_table_of_lines(short, reads, now, (count - 1) as nat);
        assert(short.take(count - 1) == lines.take(count - 1));
        assert(short[count - 1] == lines[count - 1]);
        assert(expiries_of(short, reads)[count - 1] == expiries_of(lines, reads)[count - 1]);
    }
}

proof fn lemma_table_by_last(
    lines: Seq<Seq<char>>,
    reads: spec_fn(Seq<char>) -> Option<Timestamp>,
    now: Timestamp,
)
    requires
        lines.len() > 0,
    ensures
        table_of_lines(lines, reads, now) == table_after_line(
            table_of_lines(lines.drop_last(), reads, now),
            lines.last(),
            expiries_of(seq![lines.last()], reads)[0],
            now,
        ),
{
    let count = lines.len();
    lemma_table_of_lines(lines, reads, now, (count - 1) as nat);
    assert(lines.take(count - 1) == lines.drop_last());
    assert(expiries_of(lines, reads)[count - 1] == expiries_of(seq![lines.last()], reads)[0]);
}

proof fn lemma_lines_that_count(
    lines: Seq<Seq<char>>,
    reads: spec_fn(Seq<char>) -> Option<Timestamp>,
    now: Timestamp,
)
    ensures
        table_of_lines(lines_that_count(lines, reads, now), reads, now) == table_of_lines(
            lines,
            reads,
            now,
        ),
        text::free_of(lines, '\n') ==> text::free_of(lines_that_count(lines, reads, now), '\n'),
    decreases lines.len(),
{
    if lines.len() > 0 {
        let init = lines.drop_last();
        let before = lines_that_count(init, reads, now);
        let after = lines_that_count(lines, reads, now);
        lemma_lines_that_count(init, reads, now);
        lemma_table_by_last(lines, reads, now);
        if !passed_over(lines.last(), reads, now) {
            assert(after.drop_last() == before);
            lemma_table_by_last(after, reads, now);
        }
        if text::free_of(lines, '\n') {
            assert forall|i: int| 0 <= i < init.len() implies !(#[trigger] init[i]).contains(
                '\n',
            ) by {
                assert(init[i] == lines[i]);
            }
            assert(!lines[lines.len() - 1].contains('\n'));
            assert forall|i: int| 0 <= i < after.len() implies !(#[trigger] after[i]).contains(
                '\n',
            ) by {
                if i < before.len() {
                    assert(!before[i].contains('\n'));
                }
            }
        }
    }
}

/// Lines that are passed over change nothing: a file of temporary redirects gives
/// the same table without them, whatever its expiry fields read as.
pub proof fn law_passed_over_lines_change_nothing(
    file: Seq<char>,
    reads: spec_fn(Seq<char>) -> Option<Timestamp>,
    now: Timestamp,
)
    ensures
        table_of_file(without_passed_over(file, reads, now), reads, now) == table_of_file(
            file,
            reads,
            now,
        ),
{
    let lines = lines_of(file);
    let kept = lines_that_count(lines, reads, now);
    text::lemma_pieces_free(file, '\n');
    lemma_lines_that_count(lines, reads, now);
    if kept.len() > 0 {
        text::lemma_pieces_of_joined(kept, '\n');
    } else {
        // Nothing but an empty line is left.
        let empty = Seq::<char>::empty();
        let blank = seq![empty];
        assert(lines_of(empty) == blank);
        lemma_table_by_last(blank, reads, now);
        assert(blank.drop_last() == kept);
        assert(text::trimmed(empty) == empty);
    }
}

/// A line whose rule is refused sets no address and no expiry: every domain keeps
/// what it had, and one that had nothing has at most an entry that pins nothing.
pub proof fn law_refused_line_sets_nothing(
    table: Map<Seq<char>, TestRedirect>,
    line: Seq<char>,
    expiry: Option<Timestamp>,
    now: Timestamp,
    name: Seq<char>,
)
    requires
        line_outcome(line, expiry, now) is Refused,
    ensures
        redirect_or_none(table_after_line(table, line, expiry, now), name) == redirect_or_none(
            table,
            name,
        ),
        table.contains_key(name) ==> table_after_line(table, line, expiry, now).contains_key(name),
{
}

/// A line in force pins one address of its domain, keeps the address of the other
/// family that an earlier line pinned, and sets the expiry of both to its own.
/// Other domains keep what they had.
pub proof fn law_line_in_force_merges(
    table: Map<Seq<char>, TestRedirect>,
    line: Seq<char>,
    expiry: Option<Timestamp>,
    now: Timestamp,
)
    requires
        line_outcome(line, expiry, now) == LineOutcome::Added,
    ensures
        ({
            let parts = rule_parts(text::words(text::trimmed(line))[0]);
            &&& parts matches Some((domain, ip))
            &&& normalized(domain) matches Some(name)
            &&& {
                let known = redirect_or_none(table, name);
                table_after_line(table, line, expiry, now) == table.insert(
                    name,
                    TestRedirect {
                        v4: if address::ipv4_of(ip) is Some {
                            address::ipv4_of(ip)
                        } else {
                            known.v4
                        },
                        v6: if address::ipv4_of(ip) is None {
                            address::ipv6_of(ip)
                        } else {
                            known.v6
                        },
                        expires_at: expiry,
                    },
                )
            }
        }),
{
    if let Some((domain, ip)) = rule_parts(text::words(text::trimmed(line))[0]) {
        let name = normalized(domain)->0;
        let rule = text::words(text::trimmed(line))[0];
        assert(table_after_line(table, line, expiry, now) =~= table.insert(
            name,
            TestRedirect { expires_at: expiry, ..table_with(table, rule)[name] },
        ));
    }
}

} // verus!
