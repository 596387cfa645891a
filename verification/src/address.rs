//! The textual forms of IP addresses and of address prefixes.

use crate::bytes;
use crate::ranges::Address;
use crate::text;
use crate::text::{chars_of, find, parse_unsigned, split};
use vstd::arithmetic::power2;
use vstd::prelude::*;
use vstd::slice::slice_subrange;

verus! {

/// A number of the dotted form: one to three digits, without a leading zero
/// in front of others, up to 255.
pub open spec fn octet(s: Seq<char>) -> Option<u8> {
    if 1 <= s.len() <= 3 && text::all_digits(s) && (s.len() > 1 ==> s[0] != '0')
        && text::digits_value(s) <= 255 {
        Some(text::digits_value(s) as u8)
    } else {
        None
    }
}

/// The IPv4 address that `s` spells: four numbers with dots between them.
pub open spec fn ipv4_of(s: Seq<char>) -> Option<u32> {
    let parts = text::pieces(s, '.');
    if parts.len() == 4 && octet(parts[0]) is Some && octet(parts[1]) is Some && octet(
        parts[2],
    ) is Some && octet(parts[3]) is Some {
        Some(
            (octet(parts[0])->0 * 0x100_0000 + octet(parts[1])->0 * 0x1_0000 + octet(parts[2])->0
                * 0x100 + octet(parts[3])->0) as u32,
        )
    } else {
        None
    }
}

pub open spec fn is_hex(c: char) -> bool {
    '0' <= c <= '9' || 'a' <= c <= 'f' || 'A' <= c <= 'F'
}

pub open spec fn hex_value(c: char) -> nat {
    if '0' <= c <= '9' {
        (c as nat - '0' as nat) as nat
    } else if 'a' <= c <= 'f' {
        (c as nat - 'a' as nat + 10) as nat
    } else {
        (c as nat - 'A' as nat + 10) as nat
    }
}

/// The number that the hexadecimal digits `s` spell.
pub open spec fn hex_digits_value(s: Seq<char>) -> nat
    decreases s.len(),
{
    if s.len() == 0 {
        0
    } else {
        hex_digits_value(s.drop_last()) * 16 + hex_value(s.last())
    }
}

pub open spec fn all_hex(s: Seq<char>) -> bool {
    forall|i: int| 0 <= i < s.len() ==> is_hex(#[trigger] s[i])
}

/// A group of the colon form: one to four hexadecimal digits.
pub open spec fn group(s: Seq<char>) -> Option<u16> {
    if 1 <= s.len() <= 4 && all_hex(s) {
        Some(hex_digits_value(s) as u16)
    } else {
        None
    }
}

/// Whether every one of the pieces is a group.
pub open spec fn all_groups(parts: Seq<Seq<char>>) -> bool {
    forall|i: int| 0 <= i < parts.len() ==> group(#[trigger] parts[i]) is Some
}

/// The groups that `s` lists with colons between them; none for no text. With
/// `v4_tail`, an IPv4 address may stand for the last two groups.
pub open spec fn groups(s: Seq<char>, v4_tail: bool) -> Option<Seq<u16>> {
    let parts = text::pieces(s, ':');
    let heads = parts.drop_last();
    let known = Seq::new(heads.len(), |i: int| group(heads[i])->0);
    let last = parts.last();
    if s.len() == 0 {
        Some(Seq::empty())
    } else if !all_groups(heads) {
        None
    } else if group(last) is Some {
        Some(known.push(group(last)->0))
    } else if v4_tail && ipv4_of(last) is Some {
        Some(
            known.push((ipv4_of(last)->0 / 0x1_0000) as u16).push(
                (ipv4_of(last)->0 % 0x1_0000) as u16,
            ),
        )
    } else {
        None
    }
}

/// The number that groups of sixteen bits spell, most significant first.
pub open spec fn groups_value(list: Seq<u16>) -> nat
    decreases list.len(),
{
    if list.len() == 0 {
        0
    } else {
        groups_value(list.drop_last()) * 0x1_0000 + list.last() as nat
    }
}

/// The place of the first two colons in a row.
pub open spec fn double_colon(s: Seq<char>) -> Option<int>
    decreases s.len(),
{
    if s.len() < 2 {
        None
    } else {
        match double_colon(s.drop_last()) {
            Some(at) => Some(at),
            None => if s[s.len() - 2] == ':' && s[s.len() - 1] == ':' {
                Some(s.len() - 2)
            } else {
                None
            },
        }
    }
}

/// `head`, then zeros, then `tail`, eight groups in all.
pub open spec fn filled(head: Seq<u16>, tail: Seq<u16>) -> Seq<u16> {
    head + Seq::new((8 - head.len() - tail.len()) as nat, |i: int| 0u16) + tail
}

/// The IPv6 address that `s` spells: eight groups, or fewer with `::` once for
/// one or more groups of zeros. Only the end may be written as an IPv4 address.
pub open spec fn ipv6_of(s: Seq<char>) -> Option<u128> {
    match double_colon(s) {
        None => match groups(s, true) {
            Some(list) => if list.len() == 8 {
                Some(groups_value(list) as u128)
            } else {
                None
            },
            None => None,
        },
        Some(at) => match (groups(s.take(at), false), groups(s.skip(at + 2), true)) {
            (Some(head), Some(tail)) => if head.len() + tail.len() <= 7 {
                Some(groups_value(filled(head, tail)) as u128)
            } else {
                None
            },
            _ => None,
        },
    }
}

/// Reads a number of the dotted form.
fn parse_octet(s: &[char]) -> (value: Option<u8>)
    ensures
        value == octet(s@),
{
    if s.len() == 0 || s.len() > 3 || s[0] == '+' {
        assert(s@.len() > 0 && s@[0] == '+' ==> !text::is_digit(s@[0]));
        return None;
    }
    if s.len() > 1 && s[0] == '0' {
        return None;
    }
    match parse_unsigned(s, 255) {
        Some(value) => Some(value as u8),
        None => None,
    }
}

/// Reads an IPv4 address.
pub fn parse_ipv4(s: &[char]) -> (value: Option<u32>)
    ensures
        value == ipv4_of(s@),
{
    let parts: Vec<Vec<char>> = split(s, '.');
    assert(parts@.len() == text::texts(parts@).len());
    if parts.len() != 4 {
        return None;
    }
    assert(forall|i: int| 0 <= i < 4 ==> text::texts(parts@)[i] == #[trigger] parts@[i]@);
    match (
        parse_octet(parts[0].as_slice()),
        parse_octet(parts[1].as_slice()),
        parse_octet(parts[2].as_slice()),
        parse_octet(parts[3].as_slice()),
    ) {
        (Some(a), Some(b), Some(c), Some(d)) => Some(
            a as u32 * 0x100_0000 + b as u32 * 0x1_0000 + c as u32 * 0x100 + d as u32,
        ),
        _ => None,
    }
}

/// Reads a group of the colon form.
fn parse_group(s: &[char]) -> (value: Option<u16>)
    ensures
        value == group(s@),
{
    if s.len() == 0 || s.len() > 4 {
        return None;
    }
    let mut value: u32 = 0;
    let mut at: usize = 0;
    assert(s@.take(0) == Seq::<char>::empty());
    let ghost mut room: int = 1;
    while at < s.len()
        invariant
            at <= s@.len() <= 4,
            all_hex(s@.take(at as int)),
            value == hex_digits_value(s@.take(at as int)),
            value < room,
            at == 0 ==> room == 1,
            at == 1 ==> room == 0x10,
            at == 2 ==> room == 0x100,
            at == 3 ==> room == 0x1000,
            at == 4 ==> room == 0x1_0000,
        decreases s@.len() - at,
    {
        let c: char = s[at];
        let digit: u32 = if c >= '0' && c <= '9' {
            c as u32 - '0' as u32
        } else if c >= 'a' && c <= 'f' {
            c as u32 - 'a' as u32 + 10
        } else if c >= 'A' && c <= 'F' {
            c as u32 - 'A' as u32 + 10
        } else {
            assert(!is_hex(s@[at as int]));
            return None;
        };
        proof {
            assert(s@.take(at + 1).drop_last() == s@.take(at as int));
        }
        value = value * 16 + digit;
        proof {
            room = room * 16;
        }
        at = at + 1;
    }
    assert(s@.take(s@.len() as int) == s@);
    Some(value as u16)
}

/// Reads groups with colons between them.
fn parse_groups(s: &[char], v4_tail: bool) -> (list: Option<Vec<u16>>)
    ensures
        match list {
            Some(list) => groups(s@, v4_tail) == Some(list@),
            None => groups(s@, v4_tail) is None,
        },
{
    let mut list: Vec<u16> = Vec::new();
    if s.len() == 0 {
        assert(list@ =~= Seq::<u16>::empty());
        return Some(list);
    }
    let parts: Vec<Vec<char>> = split(s, ':');
    let count: usize = parts.len();
    let ghost whole = text::texts(parts@);
    let ghost heads = whole.drop_last();
    let ghost known = Seq::new(heads.len(), |i: int| group(heads[i])->0);
    assert(whole.len() == count);
    let mut at: usize = 0;
    while at < count - 1
        invariant
            0 < count,
            at <= count - 1,
            count == parts@.len(),
            whole == text::texts(parts@),
            whole == text::pieces(s@, ':'),
            s@.len() > 0,
            heads == whole.drop_last(),
            known == Seq::new(heads.len(), |i: int| group(heads[i])->0),
            list@ == known.take(at as int),
            forall|i: int| 0 <= i < at ==> group(#[trigger] heads[i]) is Some,
        decreases count - at,
    {
        assert(heads[at as int] == parts@[at as int]@);
        match parse_group(parts[at].as_slice()) {
            Some(value) => {
                list.push(value);
            },
            None => {
                return None;
            },
        }
        at = at + 1;
        assert(list@ =~= known.take(at as int));
    }
    assert(list@ =~= known);
    assert(whole.last() == parts@[count - 1]@);
    let last: &[char] = parts[count - 1].as_slice();
    if let Some(value) = parse_group(last) {
        list.push(value);
        return Some(list);
    }
    if v4_tail {
        if let Some(value) = parse_ipv4(last) {
            list.push((value / 0x1_0000) as u16);
            list.push((value % 0x1_0000) as u16);
            return Some(list);
        }
    }
    None
}

/// Finds the first two colons in a row.
fn find_double_colon(s: &[char]) -> (at: Option<usize>)
    ensures
        match at {
            Some(at) => at + 2 <= s@.len() && double_colon(s@) == Some(at as int),
            None => double_colon(s@) is None,
        },
{
    if s.len() < 2 {
        return None;
    }
    let mut at: usize = 0;
    while at < s.len() - 1
        invariant
            2 <= s@.len(),
            at <= s@.len() - 1,
            double_colon(s@.take(at + 1)) is None,
        decreases s@.len() - at,
    {
        assert(s@.take(at + 2).drop_last() == s@.take(at + 1));
        if s[at] == ':' && s[at + 1] == ':' {
            proof {
                lemma_double_colon_prefix(s@, at + 2);
            }
            return Some(at);
        }
        at = at + 1;
    }
    assert(s@.take(s@.len() as int) == s@);
    None
}

proof fn lemma_double_colon_prefix(s: Seq<char>, count: int)
    requires
        0 <= count <= s.len(),
        double_colon(s.take(count)) is Some,
    ensures
        double_colon(s) == double_colon(s.take(count)),
    decreases s.len() - count,
{
    if count < s.len() {
        assert(s.drop_last().take(count) == s.take(count));
        lemma_double_colon_prefix(s.drop_last(), count);
    } else {
        assert(s.take(count) == s);
    }
}

/// The number that eight groups spell.
fn join_groups(list: &Vec<u16>) -> (value: u128)
    requires
        list@.len() == 8,
    ensures
        value == groups_value(list@),
{
    let mut value: u128 = 0;
    let mut at: usize = 0;
    assert(list@.take(0) == Seq::<u16>::empty());
    while at < list.len()
        invariant
            at <= list@.len() == 8,
            value == groups_value(list@.take(at as int)),
            value < bytes::pow256((2 * at) as nat),
        decreases list@.len() - at,
    {
        proof {
            bytes::lemma_pow256_values();
            bytes::lemma_pow256_monotone((2 * at + 2) as nat, 16);
            reveal_with_fuel(bytes::pow256, 3);
            assert(list@.take(at + 1).drop_last() == list@.take(at as int));
        }
        value = value * 0x1_0000 + list[at] as u128;
        at = at + 1;
    }
    assert(list@.take(8) == list@);
    value
}

/// Reads an IPv6 address.
pub fn parse_ipv6(s: &[char]) -> (value: Option<u128>)
    ensures
        value == ipv6_of(s@),
{
    let len: usize = s.len();
    match find_double_colon(s) {
        None => match parse_groups(s, true) {
            Some(list) => if list.len() == 8 {
                Some(join_groups(&list))
            } else {
                None
            },
            None => None,
        },
        Some(at) => {
            let before: &[char] = slice_subrange(s, 0, at);
            let behind: &[char] = slice_subrange(s, at + 2, len);
            assert(before@ == s@.take(at as int));
            assert(behind@ == s@.skip(at + 2));
            match (parse_groups(before, false), parse_groups(behind, true)) {
                (Some(head), Some(tail)) => if head.len() <= 7 && tail.len() <= 7 - head.len() {
                    let ghost start = head@;
                    let mut list: Vec<u16> = head;
                    while list.len() < 8 - tail.len()
                        invariant
                            start.len() <= list@.len() <= 8 - tail@.len(),
                            start.len() + tail@.len() <= 7,
                            list@ == start + Seq::new(
                                (list@.len() - start.len()) as nat,
                                |i: int| 0u16,
                            ),
                        decreases 8 - list@.len(),
                    {
                        list.push(0);
                        assert(list@ =~= start + Seq::new(
                            (list@.len() - start.len()) as nat,
                            |i: int| 0u16,
                        ));
                    }
                    list.extend_from_slice(tail.as_slice());
                    assert(list@ =~= filled(start, tail@));
                    Some(join_groups(&list))
                } else {
                    None
                },
                _ => None,
            }
        },
    }
}

/// An address family that has a textual form.
pub trait AddressText: Address {
    /// The address that `s` spells.
    spec fn spelled(s: Seq<char>) -> Option<Self>;

    /// Reads an address.
    fn parse_text(s: &[char]) -> (value: Option<Self>)
        ensures
            value == Self::spelled(s@),
    ;
}

impl AddressText for u32 {
    open spec fn spelled(s: Seq<char>) -> Option<u32> {
        ipv4_of(s)
    }

    fn parse_text(s: &[char]) -> (value: Option<u32>) {
        parse_ipv4(s)
    }
}

impl AddressText for u128 {
    open spec fn spelled(s: Seq<char>) -> Option<u128> {
        ipv6_of(s)
    }

    fn parse_text(s: &[char]) -> (value: Option<u128>) {
        parse_ipv6(s)
    }
}

/// The address and the prefix length that `s` spells: an address, then a slash
/// and a length of at most `max`. Without the slash, or with nothing behind
/// it, the length is `max`.
pub open spec fn prefix_of<T: AddressText>(s: Seq<char>, max: nat) -> Option<(T, nat)> {
    let (address, bits) = match text::place_of(s, '/') {
        Some(at) => (s.take(at), s.skip(at + 1)),
        None => (s, Seq::empty()),
    };
    let length = if bits.len() == 0 {
        Some(max)
    } else {
        text::unsigned(bits, max)
    };
    if length is Some && T::spelled(address) is Some {
        Some((T::spelled(address)->0, length->0))
    } else {
        None
    }
}

/// The addresses that share their first `bits` bits, of `width`, with `ip`: the
/// aligned block of that size that holds it.
pub open spec fn block_of(ip: nat, bits: nat, width: nat) -> (nat, nat) {
    let size = power2::pow2((width - bits) as nat);
    ((ip - ip % size) as nat, (ip - ip % size + size - 1) as nat)
}

/// The IPv4 range that a prefix in `s` stands for.
pub open spec fn v4_prefix_of(s: Seq<char>) -> Option<(u32, u32)> {
    match prefix_of::<u32>(s, 32) {
        Some((ip, bits)) => Some(
            (block_of(ip as nat, bits, 32).0 as u32, block_of(ip as nat, bits, 32).1 as u32),
        ),
        None => None,
    }
}

/// The IPv6 range that a prefix in `s` stands for.
pub open spec fn v6_prefix_of(s: Seq<char>) -> Option<(u128, u128)> {
    match prefix_of::<u128>(s, 128) {
        Some((ip, bits)) => Some(
            (block_of(ip as nat, bits, 128).0 as u128, block_of(ip as nat, bits, 128).1 as u128),
        ),
        None => None,
    }
}

/// Reads an address with an optional prefix length.
pub fn split_prefix<T: AddressText>(text: &str, max: u8) -> (prefix: Option<(T, u8)>)
    ensures
        match prefix {
            Some((ip, bits)) => prefix_of::<T>(text@, max as nat) == Some((ip, bits as nat)),
            None => prefix_of::<T>(text@, max as nat) is None,
        },
        prefix matches Some((_, bits)) ==> bits <= max,
{
    let chars: Vec<char> = chars_of(text);
    let s: &[char] = chars.as_slice();
    let len: usize = s.len();
    let (address, bits): (&[char], &[char]) = match find(s, '/') {
        Some(at) => {
            let address: &[char] = slice_subrange(s, 0, at);
            let bits: &[char] = slice_subrange(s, at + 1, len);
            assert(address@ == s@.take(at as int));
            assert(bits@ == s@.skip(at + 1));
            (address, bits)
        },
        None => {
            let none: &[char] = slice_subrange(s, len, len);
            assert(none@ == Seq::<char>::empty());
            (s, none)
        },
    };
    let length: u8 = if bits.len() == 0 {
        max
    } else {
        match parse_unsigned(bits, max as u64) {
            Some(length) => length as u8,
            None => {
                return None;
            },
        }
    };
    match T::parse_text(address) {
        Some(ip) => Some((ip, length)),
        None => None,
    }
}

/// A prefix stands for an aligned block: it holds the address, has as many
/// addresses as the bits that the prefix leaves open can tell apart, starts at
/// a multiple of that number, and does not run over the end of the family.
pub proof fn law_prefix_block(ip: nat, bits: nat, width: nat)
    requires
        bits <= width,
        ip < power2::pow2(width),
    ensures
        power2::pow2((width - bits) as nat) > 0,
        block_of(ip, bits, width).0 <= ip <= block_of(ip, bits, width).1,
        block_of(ip, bits, width).0 % power2::pow2((width - bits) as nat) == 0,
        block_of(ip, bits, width).1 < power2::pow2(width),
        block_of(ip, bits, width).1 - block_of(ip, bits, width).0 + 1 == power2::pow2(
            (width - bits) as nat,
        ),
{
    let size = power2::pow2((width - bits) as nat);
    let count = power2::pow2(bits);
    power2::lemma_pow2_pos((width - bits) as nat);
    power2::lemma_pow2_adds((width - bits) as nat, bits);
    assert(ip - ip % size + size <= size * count) by (nonlinear_arith)
        requires
            size > 0,
            ip < size * count,
    {
        assert(ip == size * (ip / size) + ip % size);
        assert(ip / size < count);
        assert(size * (ip / size + 1) <= size * count);
    }
    assert(0 <= ip % size < size) by (nonlinear_arith)
        requires
            size > 0,
    ;
    assert(ip % size <= ip) by (nonlinear_arith)
        requires
            size > 0,
    ;
    assert((ip - ip % size) as nat % size == 0) by {
        vstd::arithmetic::div_mod::lemma_fundamental_div_mod(ip as int, size as int);
        vstd::arithmetic::div_mod::lemma_mod_multiples_basic(ip as int / size as int, size as int);
        vstd::arithmetic::mul::lemma_mul_is_commutative(ip as int / size as int, size as int);
    }
}

proof fn lemma_pow2_32()
    ensures
        power2::pow2(32) == u32::MAX + 1,
{
    power2::lemma2_to64();
}

proof fn lemma_pow2_128()
    ensures
        power2::pow2(128) == u128::MAX + 1,
{
    power2::lemma2_to64();
    power2::lemma_pow2_adds(64, 64);
}

/// The range of an IPv4 prefix runs from its first to its last address.
pub proof fn lemma_v4_prefix_upward(s: Seq<char>)
    ensures
        v4_prefix_of(s) matches Some((start, end)) ==> start <= end,
{
    if let Some((ip, bits)) = prefix_of::<u32>(s, 32) {
        lemma_pow2_32();
        law_prefix_block(ip as nat, bits, 32);
    }
}

/// The range of an IPv6 prefix runs from its first to its last address.
pub proof fn lemma_v6_prefix_upward(s: Seq<char>)
    ensures
        v6_prefix_of(s) matches Some((start, end)) ==> start <= end,
{
    if let Some((ip, bits)) = prefix_of::<u128>(s, 128) {
        lemma_pow2_128();
        law_prefix_block(ip as nat, bits, 128);
    }
}

/// Reads an IPv4 prefix as the range that it stands for.
pub fn parse_v4_prefix(text: &str) -> (range: Option<(u32, u32)>)
    ensures
        range == v4_prefix_of(text@),
        range matches Some((start, end)) ==> start <= end,
{
    let (ip, bits): (u32, u8) = match split_prefix::<u32>(text, 32) {
        Some(prefix) => prefix,
        None => {
            return None;
        },
    };
    let mut span: u32 = 0;
    let mut done: u8 = bits;
    proof {
        lemma_pow2_32();
        power2::lemma2_to64();
        law_prefix_block(ip as nat, bits as nat, 32);
    }
    while done < 32
        invariant
            bits <= done <= 32,
            span + 1 == power2::pow2((done - bits) as nat),
            power2::pow2(32) == u32::MAX + 1,
        decreases 32 - done,
    {
        proof {
            power2::lemma_pow2_unfold((done - bits + 1) as nat);
            if done - bits + 1 < 32 {
                power2::lemma_pow2_strictly_increases((done - bits + 1) as nat, 32);
            }
        }
        span = span * 2 + 1;
        done = done + 1;
    }
    let start: u32 = if span == u32::MAX {
        assert(ip as nat % power2::pow2(32) == ip) by {
            vstd::arithmetic::div_mod::lemma_small_mod(ip as nat, power2::pow2(32));
        }
        0
    } else {
        ip - ip % (span + 1)
    };
    Some((start, start + span))
}

/// Reads an IPv6 prefix as the range that it stands for.
pub fn parse_v6_prefix(text: &str) -> (range: Option<(u128, u128)>)
    ensures
        range == v6_prefix_of(text@),
        range matches Some((start, end)) ==> start <= end,
{
    let (ip, bits): (u128, u8) = match split_prefix::<u128>(text, 128) {
        Some(prefix) => prefix,
        None => {
            return None;
        },
    };
    let mut span: u128 = 0;
    let mut done: u8 = bits;
    proof {
        lemma_pow2_128();
        power2::lemma2_to64();
        law_prefix_block(ip as nat, bits as nat, 128);
    }
    while done < 128
        invariant
            bits <= done <= 128,
            span + 1 == power2::pow2((done - bits) as nat),
            power2::pow2(128) == u128::MAX + 1,
        decreases 128 - done,
    {
        proof {
            power2::lemma_pow2_unfold((done - bits + 1) as nat);
            if done - bits + 1 < 128 {
                power2::lemma_pow2_strictly_increases((done - bits + 1) as nat, 128);
            }
        }
        span = span * 2 + 1;
        done = done + 1;
    }
    let start: u128 = if span == u128::MAX {
        assert(ip as nat % power2::pow2(128) == ip) by {
            vstd::arithmetic::div_mod::lemma_small_mod(ip as nat, power2::pow2(128));
        }
        0
    } else {
        ip - ip % (span + 1)
    };
    Some((start, start + span))
}

} // verus!
