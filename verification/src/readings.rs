//! What holds of the texts that are read and written: cutting, numbers, addresses.

use crate::address;
use crate::text;
use vstd::arithmetic::power2;
use vstd::prelude::*;

verus! {

/// Which characters are white space: those that Unicode calls so.
pub proof fn law_white_space(c: char)
    ensures
        text::is_space(c) <==> (seq![
            0x09u32,
            0x0a,
            0x0b,
            0x0c,
            0x0d,
            0x20,
            0x85,
            0xa0,
            0x1680,
            0x2000,
            0x2001,
            0x2002,
            0x2003,
            0x2004,
            0x2005,
            0x2006,
            0x2007,
            0x2008,
            0x2009,
            0x200a,
            0x2028,
            0x2029,
            0x202f,
            0x205f,
            0x3000,
        ]).contains(c as u32),
{
    let list = seq![
        0x09u32,
        0x0a,
        0x0b,
        0x0c,
        0x0d,
        0x20,
        0x85,
        0xa0,
        0x1680,
        0x2000,
        0x2001,
        0x2002,
        0x2003,
        0x2004,
        0x2005,
        0x2006,
        0x2007,
        0x2008,
        0x2009,
        0x200a,
        0x2028,
        0x2029,
        0x202f,
        0x205f,
        0x3000,
    ];
    let code = c as u32;
    assert(list[0] == 0x09 && list[1] == 0x0a && list[2] == 0x0b && list[3] == 0x0c && list[4]
        == 0x0d && list[5] == 0x20 && list[6] == 0x85 && list[7] == 0xa0 && list[8] == 0x1680);
    assert(list[9] == 0x2000 && list[10] == 0x2001 && list[11] == 0x2002 && list[12] == 0x2003
        && list[13] == 0x2004 && list[14] == 0x2005 && list[15] == 0x2006 && list[16] == 0x2007);
    assert(list[17] == 0x2008 && list[18] == 0x2009 && list[19] == 0x200a && list[20] == 0x2028
        && list[21] == 0x2029 && list[22] == 0x202f && list[23] == 0x205f && list[24] == 0x3000);
    if list.contains(code) {
        let i = choose|i: int| 0 <= i < list.len() && list[i] == code;
        assert(0 <= i < 25);
    }
}

/// Whether all of the characters from `from` up to `to` are white space.
pub open spec fn blank(s: Seq<char>, from: int, to: int) -> bool {
    forall|k: int| from <= k < to ==> text::is_space(#[trigger] s[k])
}

/// Whether `left` stands in `s` from `from` up to `to`, with white space alone on
/// both sides.
pub open spec fn left_between(s: Seq<char>, left: Seq<char>, from: int, to: int) -> bool {
    &&& 0 <= from <= to <= s.len()
    &&& left == s.subrange(from, to)
    &&& blank(s, 0, from)
    &&& blank(s, to, s.len() as int)
}

proof fn lemma_space_in_front(s: Seq<char>, left: Seq<char>, from: int, to: int)
    requires
        s.len() > 0,
        text::is_space(s[0]),
        left_between(s.drop_first(), left, from, to),
    ensures
        left_between(s, left, from + 1, to + 1),
{
    let rest = s.drop_first();
    assert(left =~= s.subrange(from + 1, to + 1));
    assert forall|k: int| 0 <= k < from + 1 implies text::is_space(#[trigger] s[k]) by {
        if k > 0 {
            assert(rest[k - 1] == s[k]);
        }
    }
    assert forall|k: int| to + 1 <= k < s.len() implies text::is_space(#[trigger] s[k]) by {
        assert(rest[k - 1] == s[k]);
    }
}

proof fn lemma_space_behind(s: Seq<char>, left: Seq<char>, from: int, to: int)
    requires
        s.len() > 0,
        text::is_space(s[s.len() - 1]),
        left_between(s.drop_last(), left, from, to),
    ensures
        left_between(s, left, from, to),
{
    let rest = s.drop_last();
    assert(left =~= s.subrange(from, to));
    assert forall|k: int| 0 <= k < from implies text::is_space(#[trigger] s[k]) by {
        assert(rest[k] == s[k]);
    }
    assert forall|k: int| to <= k < s.len() implies text::is_space(#[trigger] s[k]) by {
        if k < rest.len() {
            assert(rest[k] == s[k]);
        }
    }
}

/// Trimming takes the white space off the two ends and nothing else: what is left
/// stands in the text, has white space alone on both sides, and neither starts nor
/// ends with white space.
pub proof fn law_trimming(s: Seq<char>)
    ensures
        exists|from: int, to: int| left_between(s, text::trimmed(s), from, to),
        text::trimmed(s).len() > 0 ==> !text::is_space(text::trimmed(s)[0]) && !text::is_space(
            text::trimmed(s)[text::trimmed(s).len() - 1],
        ),
    decreases s.len(),
{
    let left = text::trimmed(s);
    if s.len() > 0 && text::is_space(s.first()) {
        law_trimming(s.drop_first());
        let (from, to) = choose|from: int, to: int| left_between(s.drop_first(), left, from, to);
        lemma_space_in_front(s, left, from, to);
    } else if s.len() > 0 && text::is_space(s.last()) {
        law_trimming(s.drop_last());
        let (from, to) = choose|from: int, to: int| left_between(s.drop_last(), left, from, to);
        lemma_space_behind(s, left, from, to);
    } else {
        assert(s.subrange(0, s.len() as int) =~= s);
        assert(left_between(s, left, 0, s.len() as int));
    }
}

/// Cutting at a separator loses nothing: the pieces hold none of it, and with one
/// between any two of them they make up the text again; and every list of texts
/// without the separator is what its joined text is cut into.
pub proof fn law_cutting_and_joining(s: Seq<char>, list: Seq<Seq<char>>, separator: char)
    requires
        list.len() > 0,
        forall|i: int| 0 <= i < list.len() ==> !(#[trigger] list[i]).contains(separator),
    ensures
        text::pieces(text::joined(list, separator), separator) == list,
        text::joined(text::pieces(s, separator), separator) == s,
        forall|i: int|
            0 <= i < text::pieces(s, separator).len() ==> !(#[trigger] text::pieces(s, separator)[i]).contains(
            separator),
    decreases s.len(),
{
    text::lemma_pieces_of_joined(list, separator);
    text::lemma_pieces_free(s, separator);
    let found = text::pieces(s, separator);
    if s.len() == 0 {
        assert(text::joined(found, separator) =~= s);
    } else {
        let init = s.drop_last();
        let before = text::pieces(init, separator);
        law_cutting_and_joining(init, list, separator);
        text::lemma_pieces_free(init, separator);
        if s.last() == separator {
            assert(found.drop_last() =~= before);
            assert(text::joined(found, separator) =~= init.push(separator));
        } else {
            assert(found.drop_last() =~= before.drop_last());
            if found.len() == 1 {
                assert(text::joined(found, separator) =~= init.push(s.last()));
            } else {
                assert(text::joined(before, separator) == text::joined(
                    before.drop_last(),
                    separator,
                ).push(separator) + before.last());
                assert(text::joined(found, separator) =~= init.push(s.last()));
            }
        }
        assert(s =~= init.push(s.last()));
    }
}

/// Joining texts puts the separator between any two of them.
pub proof fn law_joining(list: Seq<Seq<char>>, more: Seq<char>, separator: char)
    ensures
        text::joined(Seq::empty(), separator) == Seq::<char>::empty(),
        text::joined(seq![more], separator) == more,
        list.len() > 0 ==> text::joined(list.push(more), separator) == text::joined(list, separator)
            + seq![separator] + more,
{
    if list.len() > 0 {
        let longer = list.push(more);
        assert(longer.drop_last() == list);
        assert(text::joined(longer, separator) =~= text::joined(list, separator) + seq![separator]
            + more);
    }
}

proof fn lemma_word_read(s: Seq<char>, word: Seq<char>)
    requires
        s.len() == 0 || text::is_space(s[s.len() - 1]),
        word.len() > 0,
        forall|k: int| 0 <= k < word.len() ==> !text::is_space(#[trigger] word[k]),
    ensures
        text::words(s + word) == text::words(s).push(word),
    decreases word.len(),
{
    let whole = s + word;
    assert(!text::is_space(word[word.len() - 1]));
    assert(whole.last() == word[word.len() - 1]);
    if word.len() == 1 {
        assert(whole.drop_last() =~= s);
        assert(word =~= seq![whole.last()]);
    } else {
        let init = word.drop_last();
        assert forall|k: int| 0 <= k < init.len() implies !text::is_space(#[trigger] init[k]) by {
            assert(!text::is_space(word[k]));
        }
        lemma_word_read(s, init);
        assert(whole.drop_last() =~= s + init);
        assert(whole[whole.len() - 2] == word[word.len() - 2]);
        assert(!text::is_space(word[word.len() - 2]));
        assert(init.push(whole.last()) =~= word);
        let before = text::words(s + init);
        assert(before.last() == init);
        assert(text::words(whole) =~= text::words(s).push(word));
    }
}

/// The words of a text are what stands between its white space: one more white
/// character at the end adds none, and a run of others behind white space, or at
/// the start, is one more word.
pub proof fn law_words(s: Seq<char>, c: char, word: Seq<char>)
    requires
        text::is_space(c),
        word.len() > 0,
        forall|k: int| 0 <= k < word.len() ==> !text::is_space(#[trigger] word[k]),
    ensures
        text::words(Seq::empty()) == Seq::<Seq<char>>::empty(),
        text::words(word) == seq![word],
        text::words(s.push(c)) == text::words(s),
        text::words(s.push(c) + word) == text::words(s).push(word),
{
    lemma_word_read(Seq::empty(), word);
    assert(Seq::<char>::empty() + word =~= word);
    assert(text::words(word) =~= seq![word]);
    assert(s.push(c).drop_last() =~= s);
    lemma_word_read(s.push(c), word);
}

/// A character is found at its first place.
pub proof fn law_first_place(s: Seq<char>, c: char, at: int)
    ensures
        text::place_of(s, c) == Some(at) <==> 0 <= at < s.len() && s[at] == c && forall|k: int|
            0 <= k < at ==> #[trigger] s[k] != c,
        text::place_of(s, c) is None <==> !s.contains(c),
    decreases s.len(),
{
    if s.len() > 0 {
        let init = s.drop_last();
        law_first_place(init, c, at);
        if init.contains(c) {
            let k = choose|k: int| 0 <= k < init.len() && init[k] == c;
            assert(s[k] == c);
            law_first_place(init, c, text::place_of(init, c)->0);
        }
        if s.contains(c) {
            let k = choose|k: int| 0 <= k < s.len() && s[k] == c;
            if k < init.len() {
                assert(init[k] == c);
            }
        }
        if 0 <= at < s.len() && s[at] == c && (forall|k: int| 0 <= k < at ==> #[trigger] s[k] != c) {
            if at < init.len() {
                assert(init[at] == c);
                assert forall|k: int| 0 <= k < at implies #[trigger] init[k] != c by {
                    assert(s[k] != c);
                }
            } else if init.contains(c) {
                let k = choose|k: int| 0 <= k < init.len() && init[k] == c;
                assert(s[k] == c);
            }
        }
        if text::place_of(s, c) == Some(at) {
            assert forall|k: int| 0 <= k < at implies #[trigger] s[k] != c by {
                assert(init[k] == s[k]);
                if text::place_of(init, c) is None && s[k] == c {
                    assert(init.contains(c));
                }
            }
        }
    }
}

/// The letters A to Z become a to z; every other character stays.
pub proof fn law_lower_case(s: Seq<char>, i: int)
    requires
        0 <= i < s.len(),
    ensures
        text::lowered(s).len() == s.len(),
        65 <= s[i] as u32 <= 90 ==> text::lowered(s)[i] as u32 == s[i] as u32 + 32,
        !(65 <= s[i] as u32 <= 90) ==> text::lowered(s)[i] == s[i],
{
}

/// The dots at the end are taken off, and nothing else.
pub proof fn law_end_dots(s: Seq<char>)
    ensures
        ({
            let left = text::without_end_dots(s);
            &&& left.len() <= s.len()
            &&& left == s.take(left.len() as int)
            &&& forall|k: int| left.len() <= k < s.len() ==> #[trigger] s[k] == '.'
            &&& left.len() > 0 ==> left[left.len() - 1] != '.'
        }),
    decreases s.len(),
{
    if s.len() > 0 && s.last() == '.' {
        let init = s.drop_last();
        law_end_dots(init);
        let left = text::without_end_dots(s);
        assert(init.take(left.len() as int) =~= s.take(left.len() as int));
        assert forall|k: int| left.len() <= k < s.len() implies #[trigger] s[k] == '.' by {
            if k < init.len() {
                assert(init[k] == '.');
            }
        }
    } else {
        assert(s.take(s.len() as int) =~= s);
    }
}

/// Numbers are written in decimal: the digit for a number below ten, and one digit
/// more for ten times a number and a digit.
pub proof fn law_decimal(n: nat, digit: nat)
    requires
        digit < 10,
    ensures
        text::decimal(digit).len() == 1,
        text::decimal(digit)[0] as u32 == 48 + digit,
        n > 0 ==> text::decimal(10 * n + digit) == text::decimal(n) + text::decimal(digit),
{
    if n > 0 {
        assert((10 * n + digit) / 10 == n);
        assert((10 * n + digit) % 10 == digit);
        assert(text::decimal(10 * n + digit) =~= text::decimal(n) + text::decimal(digit));
    }
}

/// As many zeros.
pub open spec fn zeros(count: nat) -> Seq<char> {
    Seq::new(count, |i: int| '0')
}

proof fn lemma_decimal_digits(n: nat)
    ensures
        text::decimal(n).len() > 0,
        text::all_digits(text::decimal(n)),
        text::digits_value(text::decimal(n)) == n,
        n > 0 ==> text::decimal(n)[0] != '0',
        n == 0 ==> text::decimal(n) == seq!['0'],
        n >= 10 ==> text::decimal(n).len() == text::decimal(n / 10).len() + 1,
    decreases n,
{
    let s = text::decimal(n);
    if n >= 10 {
        lemma_decimal_digits(n / 10);
        assert(s.drop_last() =~= text::decimal(n / 10));
        assert(s[0] == text::decimal(n / 10)[0]);
    } else {
        assert(s.drop_last() =~= Seq::<char>::empty());
        assert(text::digits_value(Seq::empty()) == 0);
    }
}

proof fn lemma_zeros_in_front(count: nat, s: Seq<char>)
    requires
        text::all_digits(s),
    ensures
        text::all_digits(zeros(count) + s),
        text::digits_value(zeros(count) + s) == text::digits_value(s),
    decreases count + s.len(),
{
    let whole = zeros(count) + s;
    if s.len() > 0 {
        assert(whole.drop_last() =~= zeros(count) + s.drop_last());
        assert(text::all_digits(s.drop_last()));
        lemma_zeros_in_front(count, s.drop_last());
        assert forall|i: int| 0 <= i < whole.len() implies text::is_digit(#[trigger] whole[i]) by {
            if i >= count {
                assert(whole[i] == s[i - count]);
            }
        }
    } else if count > 0 {
        assert(whole.drop_last() =~= zeros((count - 1) as nat) + s);
        lemma_zeros_in_front((count - 1) as nat, s);
        assert(whole.last() == '0');
        assert(text::digits_value(whole) == text::digits_value(whole.drop_last()) * 10);
    } else {
        assert(whole =~= s);
    }
}

proof fn lemma_digits_spell(s: Seq<char>) -> (count: nat)
    requires
        s.len() > 0,
        text::all_digits(s),
    ensures
        s == zeros(count) + text::decimal(text::digits_value(s)),
    decreases s.len(),
{
    let init = s.drop_last();
    let c = s.last();
    assert(text::is_digit(s[s.len() - 1]));
    let d = text::digit_value(c);
    if init.len() == 0 {
        assert(init =~= Seq::<char>::empty());
        assert(text::digits_value(init) == 0);
        assert(text::decimal(d) =~= seq![c]);
        assert(s =~= zeros(0) + text::decimal(d));
        0
    } else {
        assert(text::all_digits(init));
        let before = lemma_digits_spell(init);
        let m = text::digits_value(init);
        lemma_decimal_digits(m);
        if m == 0 {
            assert(init =~= zeros(before) + seq!['0']);
            assert(text::decimal(d) =~= seq![c]);
            assert(zeros(before) + seq!['0'] =~= zeros(before + 1));
            assert(s =~= init + seq![c]);
            before + 1
        } else {
            law_decimal(m, d);
            assert(text::decimal(d) =~= seq![c]);
            assert(s =~= init + seq![c]);
            assert(zeros(before) + (text::decimal(m) + seq![c]) =~= (zeros(before) + text::decimal(m))
                + seq![c]);
            assert(text::digits_value(s) == 10 * m + d);
            before
        }
    }
}

/// A number is read back from its decimal form, with or without a plus sign and
/// zeros in front, where it is not above the greatest one allowed; and no other
/// text is read as a number.
pub proof fn law_numbers_read_back(s: Seq<char>, n: nat, max: nat)
    ensures
        text::unsigned(s, max) == Some(n) <==> n <= max && exists|count: nat|
            s == #[trigger] zeros(count) + text::decimal(n) || s == seq!['+'] + (zeros(count)
                + text::decimal(n)),
{
    lemma_decimal_digits(n);
    let digits = if s.len() > 0 && s[0] == '+' {
        s.drop_first()
    } else {
        s
    };
    if text::unsigned(s, max) == Some(n) {
        let count = lemma_digits_spell(digits);
        assert(digits == zeros(count) + text::decimal(n));
        if s.len() > 0 && s[0] == '+' {
            assert(s =~= seq!['+'] + digits);
        }
    }
    if n <= max && exists|count: nat|
        s == #[trigger] zeros(count) + text::decimal(n) || s == seq!['+'] + (zeros(count)
            + text::decimal(n)) {
        let count = choose|count: nat|
            s == #[trigger] zeros(count) + text::decimal(n) || s == seq!['+'] + (zeros(count)
                + text::decimal(n));
        lemma_zeros_in_front(count, text::decimal(n));
        let body = zeros(count) + text::decimal(n);
        assert(text::is_digit(body[0]));
        if s == body {
            assert(s[0] != '+');
            assert(digits == body);
        } else {
            assert(s[0] == '+');
            assert(digits =~= body);
        }
    }
}

proof fn lemma_octet(s: Seq<char>, n: nat)
    ensures
        n <= 255 ==> (address::octet(s) == Some(n as u8) <==> s == text::decimal(n)),
{
    if n <= 255 {
        lemma_decimal_digits(n);
        lemma_decimal_digits(n / 10);
        lemma_decimal_digits(n / 100);
        assert(n / 10 / 10 == n / 100);
        if n < 10 {
            assert(text::decimal(n).len() == 1);
        } else if n < 100 {
            assert(text::decimal(n / 10).len() == 1);
        } else {
            assert(text::decimal(n / 100).len() == 1);
        }
        if address::octet(s) == Some(n as u8) {
            let count = lemma_digits_spell(s);
            if count > 0 {
                assert(s[0] == '0');
                assert(s.len() == count + text::decimal(n).len());
            } else {
                assert(zeros(0) + text::decimal(n) =~= text::decimal(n));
            }
        }
    }
}

proof fn lemma_digits_no(s: Seq<char>, c: char)
    requires
        text::all_digits(s),
        !text::is_digit(c),
    ensures
        !s.contains(c),
{
    if s.contains(c) {
        let k = choose|k: int| 0 <= k < s.len() && s[k] == c;
        assert(text::is_digit(s[k]));
    }
}

/// The text of an IPv4 address: its four bytes in decimal with dots between them.
pub open spec fn ipv4_text(a: nat, b: nat, c: nat, d: nat) -> Seq<char> {
    text::decimal(a) + seq!['.'] + text::decimal(b) + seq!['.'] + text::decimal(c) + seq!['.']
        + text::decimal(d)
}

proof fn lemma_ipv4_text(a: nat, b: nat, c: nat, d: nat)
    ensures
        text::pieces(ipv4_text(a, b, c, d), '.') == seq![
            text::decimal(a),
            text::decimal(b),
            text::decimal(c),
            text::decimal(d),
        ],
        text::joined(
            seq![text::decimal(a), text::decimal(b), text::decimal(c), text::decimal(d)],
            '.',
        ) == ipv4_text(a, b, c, d),
{
    let one = seq![text::decimal(a)];
    let two = one.push(text::decimal(b));
    let three = two.push(text::decimal(c));
    let four = three.push(text::decimal(d));
    assert(four =~= seq![text::decimal(a), text::decimal(b), text::decimal(c), text::decimal(d)]);
    law_joining(Seq::empty(), text::decimal(a), '.');
    law_joining(one, text::decimal(b), '.');
    law_joining(two, text::decimal(c), '.');
    law_joining(three, text::decimal(d), '.');
    lemma_decimal_digits(a);
    lemma_decimal_digits(b);
    lemma_decimal_digits(c);
    lemma_decimal_digits(d);
    lemma_digits_no(text::decimal(a), '.');
    lemma_digits_no(text::decimal(b), '.');
    lemma_digits_no(text::decimal(c), '.');
    lemma_digits_no(text::decimal(d), '.');
    assert(text::joined(four, '.') =~= ipv4_text(a, b, c, d));
    assert(text::free_of(four, '.'));
    text::lemma_pieces_of_joined(four, '.');
}

/// An IPv4 address has one text, and that text is read as the address: the four
/// numbers in decimal, most significant first, and nothing else round them.
pub proof fn law_ipv4_text(s: Seq<char>, a: nat, b: nat, c: nat, d: nat)
    requires
        a <= 255,
        b <= 255,
        c <= 255,
        d <= 255,
    ensures
        address::ipv4_of(s) == Some((a * 0x100_0000 + b * 0x1_0000 + c * 0x100 + d) as u32) <==> s
            == ipv4_text(a, b, c, d),
{
    lemma_ipv4_text(a, b, c, d);
    let value = (a * 0x100_0000 + b * 0x1_0000 + c * 0x100 + d) as u32;
    let parts = text::pieces(s, '.');
    if address::ipv4_of(s) == Some(value) {
        let w = address::octet(parts[0])->0;
        let x = address::octet(parts[1])->0;
        let y = address::octet(parts[2])->0;
        let z = address::octet(parts[3])->0;
        assert(w == a && x == b && y == c && z == d);
        lemma_octet(parts[0], a);
        lemma_octet(parts[1], b);
        lemma_octet(parts[2], c);
        lemma_octet(parts[3], d);
        assert(parts =~= seq![
            text::decimal(a),
            text::decimal(b),
            text::decimal(c),
            text::decimal(d),
        ]);
        law_cutting_and_joining(s, seq![Seq::empty()], '.');
    }
    if s == ipv4_text(a, b, c, d) {
        lemma_octet(parts[0], a);
        lemma_octet(parts[1], b);
        lemma_octet(parts[2], c);
        lemma_octet(parts[3], d);
    }
}

/// What is read as an IPv4 address is the text of one.
pub proof fn law_only_ipv4_texts(s: Seq<char>)
    requires
        address::ipv4_of(s) is Some,
    ensures
        exists|a: nat, b: nat, c: nat, d: nat|
            a <= 255 && b <= 255 && c <= 255 && d <= 255 && s == #[trigger] ipv4_text(a, b, c, d),
        s.len() > 0,
        '0' <= s[0] <= '9',
{
    let parts = text::pieces(s, '.');
    let a = address::octet(parts[0])->0 as nat;
    let b = address::octet(parts[1])->0 as nat;
    let c = address::octet(parts[2])->0 as nat;
    let d = address::octet(parts[3])->0 as nat;
    law_ipv4_text(s, a, b, c, d);
    lemma_decimal_digits(a);
    assert(s == ipv4_text(a, b, c, d));
    assert(s[0] == text::decimal(a)[0]);
}

/// The value of a hexadecimal digit; below zero for any other character.
pub open spec fn hex(c: char) -> int {
    if '0' <= c <= '9' {
        c as int - 48
    } else if 'a' <= c <= 'f' {
        c as int - 87
    } else if 'A' <= c <= 'F' {
        c as int - 55
    } else {
        -1
    }
}

/// A group of an IPv6 address is one to four hexadecimal digits in either case, the
/// first of which weighs most.
pub proof fn law_ipv6_group(s: Seq<char>)
    ensures
        address::group(s) is Some <==> 1 <= s.len() <= 4 && forall|i: int|
            0 <= i < s.len() ==> hex(#[trigger] s[i]) >= 0,
        address::group(s) matches Some(value) ==> value == (if s.len() == 1 {
            hex(s[0])
        } else if s.len() == 2 {
            hex(s[0]) * 16 + hex(s[1])
        } else if s.len() == 3 {
            hex(s[0]) * 256 + hex(s[1]) * 16 + hex(s[2])
        } else {
            hex(s[0]) * 4096 + hex(s[1]) * 256 + hex(s[2]) * 16 + hex(s[3])
        }),
{
    reveal_with_fuel(address::hex_digits_value, 5);
    if address::group(s) is Some {
        assert forall|i: int| 0 <= i < s.len() implies hex(#[trigger] s[i]) >= 0 by {
            assert(address::is_hex(s[i]));
        }
        assert(address::is_hex(s[0]));
        if s.len() > 1 {
            assert(address::is_hex(s[1]));
        }
        if s.len() > 2 {
            assert(address::is_hex(s[2]));
        }
        if s.len() > 3 {
            assert(address::is_hex(s[3]));
        }
        assert(s.drop_last().len() == s.len() - 1);
    }
    if 1 <= s.len() <= 4 && forall|i: int| 0 <= i < s.len() ==> hex(#[trigger] s[i]) >= 0 {
        assert forall|i: int| 0 <= i < s.len() implies address::is_hex(#[trigger] s[i]) by {
            assert(hex(s[i]) >= 0);
        }
    }
}

/// Whether the texts are groups with the given values, or groups up to an IPv4
/// address at the end, which stands for two.
pub open spec fn texts_spell(texts: Seq<Seq<char>>, list: Seq<u16>, v4_tail: bool) -> bool {
    let last = texts.len() - 1;
    ||| texts.len() == list.len() && forall|i: int|
        0 <= i < texts.len() ==> address::group(#[trigger] texts[i]) == Some(list[i])
    ||| v4_tail && texts.len() + 1 == list.len() && address::ipv4_of(texts[last]) == Some(
        (list[last] * 0x1_0000 + list[last + 1]) as u32,
    ) && forall|i: int| 0 <= i < last ==> address::group(#[trigger] texts[i]) == Some(list[i])
}

/// Whether a text lists the groups with colons between them.
pub open spec fn spells_groups(s: Seq<char>, list: Seq<u16>, v4_tail: bool) -> bool {
    ||| s.len() == 0 && list.len() == 0
    ||| s.len() > 0 && exists|texts: Seq<Seq<char>>|
        texts.len() > 0 && s == #[trigger] text::joined(texts, ':') && text::free_of(texts, ':')
            && texts_spell(texts, list, v4_tail)
}

proof fn lemma_groups(s: Seq<char>, list: Seq<u16>, v4_tail: bool)
    ensures
        address::groups(s, v4_tail) == Some(list) <==> spells_groups(s, list, v4_tail),
{
    let parts = text::pieces(s, ':');
    let heads = parts.drop_last();
    text::lemma_pieces_free(s, ':');
    law_cutting_and_joining(s, seq![Seq::empty()], ':');
    let last = parts.len() - 1;
    if s.len() == 0 {
        if list.len() == 0 {
            assert(list =~= Seq::<u16>::empty());
        }
    } else {
        if address::groups(s, v4_tail) == Some(list) {
            assert forall|i: int| 0 <= i < last implies address::group(#[trigger] parts[i]) == Some(
                list[i],
            ) by {
                assert(heads[i] == parts[i]);
                assert(address::group(heads[i]) is Some);
            }
            assert(parts[last] == parts.last());
            if address::group(parts.last()) is None {
                let v = address::ipv4_of(parts.last())->0;
                assert(list[last] * 0x1_0000 + list[last + 1] == v);
            }
            assert(texts_spell(parts, list, v4_tail));
            assert(s == text::joined(parts, ':'));
        }
        if spells_groups(s, list, v4_tail) {
            let texts = choose|texts: Seq<Seq<char>>|
                texts.len() > 0 && s == #[trigger] text::joined(texts, ':') && text::free_of(
                    texts,
                    ':',
                ) && texts_spell(texts, list, v4_tail);
            text::lemma_pieces_of_joined(texts, ':');
            assert(texts == parts);
            let known = Seq::new(heads.len(), |i: int| address::group(heads[i])->0);
            assert forall|i: int| 0 <= i < heads.len() implies address::group(#[trigger] heads[i])
                == Some(list[i]) by {
                assert(heads[i] == parts[i]);
            }
            if texts.len() == list.len() && (forall|i: int|
                0 <= i < texts.len() ==> address::group(#[trigger] texts[i]) == Some(list[i])) {
                assert(address::group(parts[last]) == Some(list[last]));
                assert(known.push(list[last]) =~= list);
            } else {
                law_only_ipv4_texts(parts[last]);
                lemma_dotted_is_no_group(parts[last]);
                let v = address::ipv4_of(parts[last])->0;
                assert(v == list[last] * 0x1_0000 + list[last + 1]);
                assert(v / 0x1_0000 == list[last] && v % 0x1_0000 == list[last + 1]);
                assert(known.push(list[last]).push(list[last + 1]) =~= list);
            }
        }
    }
}

proof fn lemma_dotted_is_no_group(s: Seq<char>)
    requires
        address::ipv4_of(s) is Some,
    ensures
        address::group(s) is None,
{
    law_only_ipv4_texts(s);
    let (a, b, c, d) = choose|a: nat, b: nat, c: nat, d: nat|
        a <= 255 && b <= 255 && c <= 255 && d <= 255 && s == #[trigger] ipv4_text(a, b, c, d);
    let at = text::decimal(a).len() as int;
    assert(s[at] == '.');
    assert(!address::is_hex(s[at]));
}

/// The number that eight groups make, the first of which weighs most.
pub open spec fn eight_groups(list: Seq<u16>) -> int {
    list[0] * 0x1_0000_0000_0000_0000_0000_0000_0000 + list[1] * 0x1_0000_0000_0000_0000_0000_0000
        + list[2] * 0x1_0000_0000_0000_0000_0000 + list[3] * 0x1_0000_0000_0000_0000 + list[4]
        * 0x1_0000_0000_0000 + list[5] * 0x1_0000_0000 + list[6] * 0x1_0000 + list[7]
}

proof fn lemma_eight_groups(list: Seq<u16>)
    requires
        list.len() == 8,
    ensures
        address::groups_value(list) == eight_groups(list),
        0 <= eight_groups(list) <= u128::MAX,
{
    let v = |k: int| address::groups_value(list.take(k));
    assert(v(0) == 0);
    assert(list.take(1).drop_last() =~= list.take(0));
    assert(v(1) == v(0) * 0x1_0000 + list[0]);
    assert(list.take(2).drop_last() =~= list.take(1));
    assert(v(2) == v(1) * 0x1_0000 + list[1]);
    assert(list.take(3).drop_last() =~= list.take(2));
    assert(v(3) == v(2) * 0x1_0000 + list[2]);
    assert(list.take(4).drop_last() =~= list.take(3));
    assert(v(4) == v(3) * 0x1_0000 + list[3]);
    assert(list.take(5).drop_last() =~= list.take(4));
    assert(v(5) == v(4) * 0x1_0000 + list[4]);
    assert(list.take(6).drop_last() =~= list.take(5));
    assert(v(6) == v(5) * 0x1_0000 + list[5]);
    assert(list.take(7).drop_last() =~= list.take(6));
    assert(v(7) == v(6) * 0x1_0000 + list[6]);
    assert(list.drop_last() =~= list.take(7));
    assert(address::groups_value(list) == v(7) * 0x1_0000 + list[7]);
}

/// Whether two colons in a row stand at `at`.
pub open spec fn colons_at(s: Seq<char>, at: int) -> bool {
    0 <= at && at + 1 < s.len() && s[at] == ':' && s[at + 1] == ':'
}

proof fn lemma_double_colon(s: Seq<char>, at: int)
    ensures
        address::double_colon(s) == Some(at) <==> colons_at(s, at) && forall|k: int|
            0 <= k < at ==> !#[trigger] colons_at(s, k),
        address::double_colon(s) is None <==> forall|k: int| !#[trigger] colons_at(s, k),
    decreases s.len(),
{
    if s.len() >= 2 {
        let init = s.drop_last();
        lemma_double_colon(init, at);
        assert forall|k: int| k != s.len() - 2 implies #[trigger] colons_at(s, k) == colons_at(
            init,
            k,
        ) by {
        }
        assert(!colons_at(init, s.len() - 2));
        if address::double_colon(init) is Some {
            let found = address::double_colon(init)->0;
            lemma_double_colon(init, found);
            assert(colons_at(s, found));
        } else {
            assert(colons_at(s, s.len() - 2) == (s[s.len() - 2] == ':' && s[s.len() - 1] == ':'));
            assert forall|k: int| k != s.len() - 2 implies !#[trigger] colons_at(s, k) by {
                assert(!colons_at(init, k));
            }
        }
        if colons_at(s, at) && (forall|k: int| 0 <= k < at ==> !#[trigger] colons_at(s, k)) {
            if at < s.len() - 2 {
                assert(colons_at(init, at));
                assert forall|k: int| 0 <= k < at implies !#[trigger] colons_at(init, k) by {
                    assert(!colons_at(s, k));
                }
            }
        }
        if address::double_colon(s) == Some(at) {
            assert forall|k: int| 0 <= k < at implies !#[trigger] colons_at(s, k) by {
                assert(colons_at(s, k) == colons_at(init, k));
            }
        }
    }
}

/// Without two colons in a row, a text is read as an IPv6 address exactly where it
/// lists eight groups, the last two of which may be written as an IPv4 address.
pub proof fn law_ipv6_in_full(s: Seq<char>, value: u128)
    requires
        forall|k: int| !#[trigger] colons_at(s, k),
    ensures
        address::ipv6_of(s) == Some(value) <==> exists|list: Seq<u16>| #[trigger]
            spells_groups(s, list, true) && list.len() == 8 && value == eight_groups(list),
{
    lemma_double_colon(s, 0);
    if address::ipv6_of(s) == Some(value) {
        let list = address::groups(s, true)->0;
        lemma_groups(s, list, true);
        lemma_eight_groups(list);
        assert(spells_groups(s, list, true));
    }
    if exists|list: Seq<u16>| #[trigger]
        spells_groups(s, list, true) && list.len() == 8 && value == eight_groups(list) {
        let list = choose|list: Seq<u16>| #[trigger]
            spells_groups(s, list, true) && list.len() == 8 && value == eight_groups(list);
        lemma_groups(s, list, true);
        lemma_eight_groups(list);
    }
}

/// With two colons in a row, the first ones standing at `at`, a text is read as an
/// IPv6 address exactly where the texts on both sides list at most seven groups
/// together; these take the two ends, and zeros stand between them. Only the last
/// two groups may be written as an IPv4 address.
pub proof fn law_ipv6_with_gap(s: Seq<char>, at: int, value: u128)
    requires
        colons_at(s, at),
        forall|k: int| 0 <= k < at ==> !#[trigger] colons_at(s, k),
    ensures
        address::ipv6_of(s) == Some(value) <==> exists|head: Seq<u16>, tail: Seq<u16>|
            #![trigger spells_groups(s.take(at), head, false), spells_groups(s.skip(at + 2), tail, true)]
            spells_groups(s.take(at), head, false) && spells_groups(s.skip(at + 2), tail, true)
                && head.len() + tail.len() <= 7 && value == eight_groups(
                head + Seq::new((8 - head.len() - tail.len()) as nat, |i: int| 0u16) + tail,
            ),
{
    lemma_double_colon(s, at);
    if address::ipv6_of(s) == Some(value) {
        let head = address::groups(s.take(at), false)->0;
        let tail = address::groups(s.skip(at + 2), true)->0;
        lemma_groups(s.take(at), head, false);
        lemma_groups(s.skip(at + 2), tail, true);
        lemma_eight_groups(address::filled(head, tail));
        assert(spells_groups(s.take(at), head, false) && spells_groups(s.skip(at + 2), tail, true));
    }
    if exists|head: Seq<u16>, tail: Seq<u16>|
        #![trigger spells_groups(s.take(at), head, false), spells_groups(s.skip(at + 2), tail, true)]
        spells_groups(s.take(at), head, false) && spells_groups(s.skip(at + 2), tail, true)
            && head.len() + tail.len() <= 7 && value == eight_groups(
            head + Seq::new((8 - head.len() - tail.len()) as nat, |i: int| 0u16) + tail,
        ) {
        let (head, tail) = choose|head: Seq<u16>, tail: Seq<u16>|
            #![trigger spells_groups(s.take(at), head, false), spells_groups(s.skip(at + 2), tail, true)]
            spells_groups(s.take(at), head, false) && spells_groups(s.skip(at + 2), tail, true)
                && head.len() + tail.len() <= 7 && value == eight_groups(
                head + Seq::new((8 - head.len() - tail.len()) as nat, |i: int| 0u16) + tail,
            );
        lemma_groups(s.take(at), head, false);
        lemma_groups(s.skip(at + 2), tail, true);
        lemma_eight_groups(address::filled(head, tail));
    }
}

/// Whether `range` is the block of addresses that share their first bits with `ip`
/// when `open` bits are left open, out of a family with that many addresses.
pub open spec fn is_block(ip: int, open: nat, start: int, end: int) -> bool {
    &&& start <= ip <= end
    &&& end - start + 1 == power2::pow2(open)
    &&& start % (power2::pow2(open) as int) == 0
}

/// An IPv4 prefix: a text without a slash is an address with all of its bits; a
/// number behind a slash, of at most 32, says how many of the first bits count. It
/// stands for the block of all addresses that share these. Nothing else is one.
pub proof fn law_ipv4_prefix(ip: Seq<char>, bits: Seq<char>, n: nat)
    requires
        !ip.contains('/'),
    ensures
        address::ipv4_of(ip) is None ==> address::v4_prefix_of(ip) is None && address::v4_prefix_of(
            ip + seq!['/'] + bits,
        ) is None,
        address::ipv4_of(ip) matches Some(value) ==> {
            &&& address::v4_prefix_of(ip) == Some((value, value))
            &&& bits.len() == 0 ==> address::v4_prefix_of(ip + seq!['/'] + bits) == Some(
                (value, value),
            )
            &&& bits.len() > 0 && text::unsigned(bits, 32) is None ==> address::v4_prefix_of(
                ip + seq!['/'] + bits,
            ) is None
            &&& bits.len() > 0 && text::unsigned(bits, 32) == Some(n) ==> {
                &&& address::v4_prefix_of(ip + seq!['/'] + bits) matches Some((start, end))
                &&& n <= 32
                &&& is_block(value as int, (32 - n) as nat, start as int, end as int)
            }
        },
{
    let whole = ip + seq!['/'] + bits;
    law_first_place(ip, '/', 0);
    law_first_place(whole, '/', ip.len() as int);
    assert(whole[ip.len() as int] == '/');
    assert forall|k: int| 0 <= k < ip.len() implies #[trigger] whole[k] != '/' by {
        assert(whole[k] == ip[k]);
        assert(ip.contains(ip[k]));
    }
    assert(whole.take(ip.len() as int) =~= ip);
    assert(whole.skip(ip.len() as int + 1) =~= bits);
    if let Some(value) = address::ipv4_of(ip) {
        power2::lemma2_to64();
        address::law_prefix_block(value as nat, 32, 32);
        if text::unsigned(bits, 32) == Some(n) {
            address::law_prefix_block(value as nat, n, 32);
        }
    }
}

/// An IPv6 prefix: as for IPv4, with up to 128 bits.
pub proof fn law_ipv6_prefix(ip: Seq<char>, bits: Seq<char>, n: nat)
    requires
        !ip.contains('/'),
    ensures
        address::ipv6_of(ip) is None ==> address::v6_prefix_of(ip) is None && address::v6_prefix_of(
            ip + seq!['/'] + bits,
        ) is None,
        address::ipv6_of(ip) matches Some(value) ==> {
            &&& address::v6_prefix_of(ip) == Some((value, value))
            &&& bits.len() == 0 ==> address::v6_prefix_of(ip + seq!['/'] + bits) == Some(
                (value, value),
            )
            &&& bits.len() > 0 && text::unsigned(bits, 128) is None ==> address::v6_prefix_of(
                ip + seq!['/'] + bits,
            ) is None
            &&& bits.len() > 0 && text::unsigned(bits, 128) == Some(n) ==> {
                &&& address::v6_prefix_of(ip + seq!['/'] + bits) matches Some((start, end))
                &&& n <= 128
                &&& is_block(value as int, (128 - n) as nat, start as int, end as int)
            }
        },
{
    let whole = ip + seq!['/'] + bits;
    law_first_place(ip, '/', 0);
    law_first_place(whole, '/', ip.len() as int);
    assert(whole[ip.len() as int] == '/');
    assert forall|k: int| 0 <= k < ip.len() implies #[trigger] whole[k] != '/' by {
        assert(whole[k] == ip[k]);
        assert(ip.contains(ip[k]));
    }
    assert(whole.take(ip.len() as int) =~= ip);
    assert(whole.skip(ip.len() as int + 1) =~= bits);
    if let Some(value) = address::ipv6_of(ip) {
        power2::lemma2_to64();
        power2::lemma_pow2_adds(64, 64);
        address::law_prefix_block(value as nat, 128, 128);
        if text::unsigned(bits, 128) == Some(n) {
            address::law_prefix_block(value as nat, n, 128);
        }
    }
}

} // verus!
