//! Text as sequences of characters: cutting, trimming, and decimal numbers.

use vstd::prelude::*;

verus! {

/// `String::push` appends one character.
pub assume_specification[ String::push ](s: &mut String, c: char)
    ensures
        final(s)@ == old(s)@.push(c),
;

/// Whether `c` has the Unicode property White_Space.
pub open spec fn is_space(c: char) -> bool {
    let code = c as u32;
    ||| 0x09 <= code <= 0x0d
    ||| code == 0x20
    ||| code == 0x85
    ||| code == 0xa0
    ||| code == 0x1680
    ||| 0x2000 <= code <= 0x200a
    ||| code == 0x2028
    ||| code == 0x2029
    ||| code == 0x202f
    ||| code == 0x205f
    ||| code == 0x3000
}

/// `s` without the white space at its two ends.
pub open spec fn trimmed(s: Seq<char>) -> Seq<char>
    decreases s.len(),
{
    if s.len() > 0 && is_space(s.first()) {
        trimmed(s.drop_first())
    } else if s.len() > 0 && is_space(s.last()) {
        trimmed(s.drop_last())
    } else {
        s
    }
}

/// `s` without the dots at its end.
pub open spec fn without_end_dots(s: Seq<char>) -> Seq<char>
    decreases s.len(),
{
    if s.len() > 0 && s.last() == '.' {
        without_end_dots(s.drop_last())
    } else {
        s
    }
}

/// The lower-case form of an ASCII letter; every other character as it is.
pub open spec fn lower(c: char) -> char {
    if 'A' <= c <= 'Z' {
        ((c as u8) + 32) as char
    } else {
        c
    }
}

/// `s` with its ASCII letters in lower case.
pub open spec fn lowered(s: Seq<char>) -> Seq<char> {
    Seq::new(s.len(), |i: int| lower(s[i]))
}

/// The pieces of `s` between the separators, the empty ones included; there is
/// always at least one.
pub open spec fn pieces(s: Seq<char>, separator: char) -> Seq<Seq<char>>
    decreases s.len(),
{
    if s.len() == 0 {
        seq![Seq::empty()]
    } else {
        let before = pieces(s.drop_last(), separator);
        if s.last() == separator {
            before.push(Seq::empty())
        } else {
            before.update(before.len() - 1, before.last().push(s.last()))
        }
    }
}

/// The maximal runs of `s` that hold no white space.
pub open spec fn words(s: Seq<char>) -> Seq<Seq<char>>
    decreases s.len(),
{
    if s.len() == 0 {
        Seq::empty()
    } else {
        let before = words(s.drop_last());
        if is_space(s.last()) {
            before
        } else if s.len() == 1 || is_space(s[s.len() - 2]) {
            before.push(seq![s.last()])
        } else {
            before.update(before.len() - 1, before.last().push(s.last()))
        }
    }
}

/// The place of the first `c` in `s`.
pub open spec fn place_of(s: Seq<char>, c: char) -> Option<int>
    decreases s.len(),
{
    if s.len() == 0 {
        None
    } else {
        match place_of(s.drop_last(), c) {
            Some(at) => Some(at),
            None => if s.last() == c {
                Some(s.len() - 1)
            } else {
                None
            },
        }
    }
}

/// Whether `s` starts with `head`.
pub open spec fn starts_with(s: Seq<char>, head: Seq<char>) -> bool {
    head.len() <= s.len() && s.take(head.len() as int) == head
}

pub open spec fn is_digit(c: char) -> bool {
    '0' <= c <= '9'
}

pub open spec fn digit_value(c: char) -> nat {
    (c as nat - '0' as nat) as nat
}

pub open spec fn all_digits(s: Seq<char>) -> bool {
    forall|i: int| 0 <= i < s.len() ==> is_digit(#[trigger] s[i])
}

/// The number that the decimal digits `s` spell.
pub open spec fn digits_value(s: Seq<char>) -> nat
    decreases s.len(),
{
    if s.len() == 0 {
        0
    } else {
        digits_value(s.drop_last()) * 10 + digit_value(s.last())
    }
}

/// The number that `s` spells in decimal, after a plus sign if it has one:
/// `None` without a digit, with anything but digits, or above `max`.
pub open spec fn unsigned(s: Seq<char>, max: nat) -> Option<nat> {
    let digits = if s.len() > 0 && s[0] == '+' {
        s.drop_first()
    } else {
        s
    };
    if digits.len() > 0 && all_digits(digits) && digits_value(digits) <= max {
        Some(digits_value(digits))
    } else {
        None
    }
}

/// The decimal digits of `n`, without leading zeros.
pub open spec fn decimal(n: nat) -> Seq<char>
    decreases n,
{
    let digit = (('0' as u8) + (n % 10)) as char;
    if n < 10 {
        seq![digit]
    } else {
        decimal(n / 10).push(digit)
    }
}

/// The character sequences that a list of vectors holds.
pub open spec fn texts(list: Seq<Vec<char>>) -> Seq<Seq<char>> {
    Seq::new(list.len(), |i: int| list[i]@)
}

/// The characters of a string.
pub fn chars_of(s: &str) -> (chars: Vec<char>)
    ensures
        chars@ == s@,
{
    let mut chars: Vec<char> = Vec::new();
    for c in it: s.chars()
        invariant
            it.seq() == s@,
            chars@ == it.seq().take(it.index()),
    {
        chars.push(c);
    }
    chars
}

/// The string of the given characters.
pub fn string_of(chars: &[char]) -> (s: String)
    ensures
        s@ == chars@,
{
    let mut s: String = String::new();
    let mut done: usize = 0;
    while done < chars.len()
        invariant
            done <= chars@.len(),
            s@ == chars@.take(done as int),
        decreases chars@.len() - done,
    {
        s.push(chars[done]);
        done = done + 1;
        assert(s@ =~= chars@.take(done as int));
    }
    assert(chars@.take(chars@.len() as int) == chars@);
    s
}

pub fn white(c: char) -> (answer: bool)
    ensures
        answer == is_space(c),
{
    let code: u32 = c as u32;
    (code >= 0x09 && code <= 0x0d) || code == 0x20 || code == 0x85 || code == 0xa0 || code == 0x1680
        || (code >= 0x2000 && code <= 0x200a) || code == 0x2028 || code == 0x2029 || code == 0x202f
        || code == 0x205f || code == 0x3000
}

/// Removes the white space at the two ends.
pub fn trim(s: &[char]) -> (out: &[char])
    ensures
        out@ == trimmed(s@),
{
    let mut low: usize = 0;
    let mut high: usize = s.len();
    assert(s@.subrange(0, s@.len() as int) == s@);
    while low < high && white(s[low])
        invariant
            low <= high == s@.len(),
            trimmed(s@.subrange(low as int, high as int)) == trimmed(s@),
        decreases high - low,
    {
        assert(s@.subrange(low as int, high as int).drop_first() == s@.subrange(
            low + 1,
            high as int,
        ));
        low = low + 1;
    }
    while low < high && white(s[high - 1])
        invariant
            low <= high <= s@.len(),
            low < high ==> !is_space(s@[low as int]),
            trimmed(s@.subrange(low as int, high as int)) == trimmed(s@),
        decreases high - low,
    {
        assert(s@.subrange(low as int, high as int).drop_last() == s@.subrange(
            low as int,
            high - 1,
        ));
        high = high - 1;
    }
    vstd::slice::slice_subrange(s, low, high)
}

/// Removes the dots at the end.
pub fn trim_end_dots(s: &[char]) -> (out: &[char])
    ensures
        out@ == without_end_dots(s@),
{
    let mut high: usize = s.len();
    assert(s@.subrange(0, s@.len() as int) == s@);
    while high > 0 && s[high - 1] == '.'
        invariant
            high <= s@.len(),
            without_end_dots(s@.subrange(0, high as int)) == without_end_dots(s@),
        decreases high,
    {
        assert(s@.subrange(0, high as int).drop_last() == s@.subrange(0, high - 1));
        high = high - 1;
    }
    vstd::slice::slice_subrange(s, 0, high)
}

pub fn lower_char(c: char) -> (out: char)
    ensures
        out == lower(c),
{
    if c >= 'A' && c <= 'Z' {
        ((c as u8) + 32) as char
    } else {
        c
    }
}

/// Lower-cases the ASCII letters.
pub fn to_lower(s: &[char]) -> (out: Vec<char>)
    ensures
        out@ == lowered(s@),
{
    let mut out: Vec<char> = Vec::new();
    let mut done: usize = 0;
    while done < s.len()
        invariant
            done <= s@.len(),
            out@ == lowered(s@).take(done as int),
        decreases s@.len() - done,
    {
        out.push(lower_char(s[done]));
        done = done + 1;
        assert(out@ =~= lowered(s@).take(done as int));
    }
    assert(lowered(s@).take(s@.len() as int) == lowered(s@));
    out
}

/// Finds the first `c`.
pub fn find(s: &[char], c: char) -> (at: Option<usize>)
    ensures
        match at {
            Some(at) => at < s@.len() && place_of(s@, c) == Some(at as int),
            None => place_of(s@, c) is None,
        },
{
    let mut at: usize = 0;
    assert(s@.take(0) == Seq::<char>::empty());
    while at < s.len()
        invariant
            at <= s@.len(),
            place_of(s@.take(at as int), c) is None,
        decreases s@.len() - at,
    {
        assert(s@.take(at + 1).drop_last() == s@.take(at as int));
        if s[at] == c {
            proof {
                lemma_place_of_prefix(s@, c, at + 1);
            }
            return Some(at);
        }
        at = at + 1;
    }
    assert(s@.take(s@.len() as int) == s@);
    None
}

proof fn lemma_place_of_prefix(s: Seq<char>, c: char, count: int)
    requires
        0 <= count <= s.len(),
        place_of(s.take(count), c) is Some,
    ensures
        place_of(s, c) == place_of(s.take(count), c),
    decreases s.len() - count,
{
    if count < s.len() {
        assert(s.drop_last().take(count) == s.take(count));
        lemma_place_of_prefix(s.drop_last(), c, count);
    } else {
        assert(s.take(count) == s);
    }
}

/// The texts with separators between them.
pub open spec fn joined(list: Seq<Seq<char>>, separator: char) -> Seq<char>
    decreases list.len(),
{
    if list.len() == 0 {
        Seq::empty()
    } else if list.len() == 1 {
        list[0]
    } else {
        joined(list.drop_last(), separator).push(separator) + list.last()
    }
}

/// Whether none of the texts holds the separator.
pub open spec fn free_of(list: Seq<Seq<char>>, separator: char) -> bool {
    forall|i: int| 0 <= i < list.len() ==> !(#[trigger] list[i]).contains(separator)
}

/// No piece holds the separator, and there is at least one piece.
pub proof fn lemma_pieces_free(s: Seq<char>, separator: char)
    ensures
        pieces(s, separator).len() > 0,
        free_of(pieces(s, separator), separator),
    decreases s.len(),
{
    if s.len() > 0 {
        let before = pieces(s.drop_last(), separator);
        let now = pieces(s, separator);
        lemma_pieces_free(s.drop_last(), separator);
        assert forall|i: int| 0 <= i < now.len() implies !(#[trigger] now[i]).contains(
            separator,
        ) by {
            if i < before.len() {
                assert(!before[i].contains(separator));
            }
            if now[i].contains(separator) {
                let k = choose|k: int| 0 <= k < now[i].len() && now[i][k] == separator;
                if i < before.len() && k < before[i].len() {
                    assert(before[i][k] == separator);
                }
            }
        }
    }
}

proof fn lemma_pieces_extended(s: Seq<char>, more: Seq<char>, separator: char)
    requires
        !more.contains(separator),
    ensures
        pieces(s, separator).len() > 0,
        pieces(s + more, separator) == pieces(s, separator).update(
            pieces(s, separator).len() - 1,
            pieces(s, separator).last() + more,
        ),
    decreases more.len(),
{
    lemma_pieces_free(s, separator);
    let old_pieces = pieces(s, separator);
    if more.len() == 0 {
        assert(s + more == s);
        assert(old_pieces.last() + more == old_pieces.last());
        assert(pieces(s + more, separator) =~= old_pieces.update(
            old_pieces.len() - 1,
            old_pieces.last() + more,
        ));
    } else {
        let init = more.drop_last();
        assert(more.contains(more[more.len() - 1]));
        if init.contains(separator) {
            let k = choose|k: int| 0 <= k < init.len() && init[k] == separator;
            assert(more[k] == separator);
        }
        lemma_pieces_extended(s, init, separator);
        assert((s + more).drop_last() == s + init);
        assert((s + more).last() == more.last());
        assert((old_pieces.last() + init).push(more.last()) == old_pieces.last() + more);
        assert(pieces(s + more, separator) =~= old_pieces.update(
            old_pieces.len() - 1,
            old_pieces.last() + more,
        ));
    }
}

/// Cutting joined texts gives the texts back.
pub proof fn lemma_pieces_of_joined(list: Seq<Seq<char>>, separator: char)
    requires
        list.len() > 0,
        free_of(list, separator),
    ensures
        pieces(joined(list, separator), separator) == list,
    decreases list.len(),
{
    let last = list[list.len() - 1];
    assert(!last.contains(separator));
    if list.len() == 1 {
        let none = Seq::<char>::empty();
        lemma_pieces_extended(none, last, separator);
        assert(none + last == last);
        assert(pieces(last, separator) =~= list);
    } else {
        let init = list.drop_last();
        assert forall|i: int| 0 <= i < init.len() implies !(#[trigger] init[i]).contains(
            separator,
        ) by {
            assert(init[i] == list[i]);
        }
        lemma_pieces_of_joined(init, separator);
        let head = joined(init, separator).push(separator);
        assert(head.drop_last() == joined(init, separator));
        assert(pieces(head, separator) == init.push(Seq::<char>::empty()));
        lemma_pieces_extended(head, last, separator);
        assert(Seq::<char>::empty() + last == last);
        assert(pieces(head + last, separator) =~= list);
    }
}

/// Cuts `s` at every separator.
pub fn split(s: &[char], separator: char) -> (out: Vec<Vec<char>>)
    ensures
        texts(out@) == pieces(s@, separator),
        out@.len() > 0,
{
    let mut out: Vec<Vec<char>> = Vec::new();
    out.push(Vec::new());
    let mut done: usize = 0;
    assert(texts(out@) =~= pieces(s@.take(0), separator));
    while done < s.len()
        invariant
            done <= s@.len(),
            out@.len() > 0,
            texts(out@) == pieces(s@.take(done as int), separator),
        decreases s@.len() - done,
    {
        assert(s@.take(done + 1).drop_last() == s@.take(done as int));
        let c: char = s[done];
        if c == separator {
            out.push(Vec::new());
        } else {
            extend_last(&mut out, c);
        }
        done = done + 1;
        assert(texts(out@) =~= pieces(s@.take(done as int), separator));
    }
    assert(s@.take(s@.len() as int) == s@);
    out
}

/// Appends `c` to the last of the texts.
fn extend_last(out: &mut Vec<Vec<char>>, c: char)
    requires
        old(out)@.len() > 0,
    ensures
        final(out)@.len() == old(out)@.len(),
        texts(final(out)@) == texts(old(out)@).update(
            old(out)@.len() - 1,
            texts(old(out)@).last().push(c),
        ),
{
    if let Some(piece) = out.pop() {
        let mut piece: Vec<char> = piece;
        piece.push(c);
        out.push(piece);
    }
    assert(texts(out@) =~= texts(old(out)@).update(
        old(out)@.len() - 1,
        texts(old(out)@).last().push(c),
    ));
}

/// Cuts `s` at its white space, leaving out empty pieces.
pub fn split_words(s: &[char]) -> (out: Vec<Vec<char>>)
    ensures
        texts(out@) == words(s@),
{
    let mut out: Vec<Vec<char>> = Vec::new();
    let mut done: usize = 0;
    assert(texts(out@) =~= words(s@.take(0)));
    while done < s.len()
        invariant
            done <= s@.len(),
            texts(out@) == words(s@.take(done as int)),
            done > 0 && !is_space(s@[done - 1]) ==> out@.len() > 0,
        decreases s@.len() - done,
    {
        assert(s@.take(done + 1).drop_last() == s@.take(done as int));
        let c: char = s[done];
        if !white(c) {
            if done == 0 || white(s[done - 1]) {
                let mut word: Vec<char> = Vec::new();
                word.push(c);
                assert(word@ =~= seq![c]);
                out.push(word);
            } else {
                extend_last(&mut out, c);
            }
        }
        done = done + 1;
        assert(texts(out@) =~= words(s@.take(done as int)));
    }
    assert(s@.take(s@.len() as int) == s@);
    out
}

/// Whether two character sequences are the same.
pub fn same(a: &[char], b: &[char]) -> (answer: bool)
    ensures
        answer == (a@ == b@),
{
    if a.len() != b.len() {
        return false;
    }
    let mut done: usize = 0;
    while done < a.len()
        invariant
            done <= a@.len() == b@.len(),
            forall|i: int| 0 <= i < done ==> a@[i] == b@[i],
        decreases a@.len() - done,
    {
        if a[done] != b[done] {
            return false;
        }
        done = done + 1;
    }
    assert(a@ =~= b@);
    true
}

/// Whether `s` starts with `head`.
pub fn has_head(s: &[char], head: &[char]) -> (answer: bool)
    ensures
        answer == starts_with(s@, head@),
{
    if s.len() < head.len() {
        return false;
    }
    same(vstd::slice::slice_subrange(s, 0, head.len()), head)
}

/// Reads an unsigned decimal number of at most `max`.
pub fn parse_unsigned(s: &[char], max: u64) -> (number: Option<u64>)
    ensures
        match number {
            Some(number) => unsigned(s@, max as nat) == Some(number as nat),
            None => unsigned(s@, max as nat) is None,
        },
{
    let first: usize = if s.len() > 0 && s[0] == '+' {
        1
    } else {
        0
    };
    let ghost digits = s@.subrange(first as int, s@.len() as int);
    assert(first == 1 ==> digits == s@.drop_first());
    assert(first == 0 ==> digits == s@);
    if s.len() == first {
        return None;
    }
    // Above `max` the exact number no longer matters.
    let cap: u128 = max as u128 + 1;
    let mut number: u128 = 0;
    let mut at: usize = first;
    assert(digits.take(0) == Seq::<char>::empty());
    while at < s.len()
        invariant
            first <= at <= s@.len(),
            cap == max + 1,
            digits == s@.subrange(first as int, s@.len() as int),
            digits == (if s@.len() > 0 && s@[0] == '+' {
                s@.drop_first()
            } else {
                s@
            }),
            all_digits(digits.take(at - first)),
            number == (if digits_value(digits.take(at - first)) < cap {
                digits_value(digits.take(at - first)) as int
            } else {
                cap as int
            }),
        decreases s@.len() - at,
    {
        let c: char = s[at];
        assert(digits[at - first] == c);
        if c < '0' || c > '9' {
            assert(!is_digit(digits[at - first]));
            return None;
        }
        proof {
            let next = digits.take(at - first + 1);
            assert(next.drop_last() == digits.take(at - first));
            assert(next.last() == c);
        }
        number = number * 10 + (c as u32 - '0' as u32) as u128;
        if number > cap {
            number = cap;
        }
        at = at + 1;
    }
    assert(digits.take(digits.len() as int) == digits);
    if number <= max as u128 {
        Some(number as u64)
    } else {
        None
    }
}

/// Appends the decimal digits of `n`.
pub fn push_decimal(out: &mut String, n: u64)
    ensures
        final(out)@ == old(out)@ + decimal(n as nat),
    decreases n,
{
    if n >= 10 {
        push_decimal(out, n / 10);
    }
    out.push(('0' as u8 + (n % 10) as u8) as char);
    assert(out@ =~= old(out)@ + decimal(n as nat));
}

} // verus!
