//! Big-endian integers inside byte sequences.

use vstd::prelude::*;

verus! {

/// The number that `bytes` spells in base 256, most significant byte first.
pub open spec fn be_value(bytes: Seq<u8>) -> nat
    decreases bytes.len(),
{
    if bytes.len() == 0 {
        0
    } else {
        be_value(bytes.drop_last()) * 256 + bytes.last() as nat
    }
}

/// The `width` lowest base-256 digits of `value`, most significant first.
pub open spec fn be_bytes(value: nat, width: nat) -> Seq<u8>
    decreases width,
{
    if width == 0 {
        Seq::empty()
    } else {
        be_bytes(value / 256, (width - 1) as nat).push((value % 256) as u8)
    }
}

/// The number in the `width` bytes of `bytes` that start at `pos`.
pub open spec fn be_field(bytes: Seq<u8>, pos: int, width: nat) -> nat {
    be_value(bytes.subrange(pos, pos + width))
}

/// `bytes` with `patch` written over what stands at `at`.
pub open spec fn overwrite(bytes: Seq<u8>, at: int, patch: Seq<u8>) -> Seq<u8> {
    Seq::new(
        bytes.len(),
        |i: int|
            if at <= i < at + patch.len() {
                patch[i - at]
            } else {
                bytes[i]
            },
    )
}

/// How many numbers `width` bytes can spell.
pub open spec fn pow256(width: nat) -> nat
    decreases width,
{
    if width == 0 {
        1
    } else {
        256 * pow256((width - 1) as nat)
    }
}

pub proof fn lemma_pow256_values()
    ensures
        pow256(1) == 0x100,
        pow256(2) == 0x1_0000,
        pow256(4) == 0x1_0000_0000,
        pow256(16) == 0x1_0000_0000_0000_0000_0000_0000_0000_0000,
{
    reveal_with_fuel(pow256, 17);
}

pub proof fn lemma_pow256_monotone(narrow: nat, wide: nat)
    requires
        narrow <= wide,
    ensures
        0 < pow256(narrow) <= pow256(wide),
    decreases wide,
{
    if wide > 0 {
        if narrow < wide {
            lemma_pow256_monotone(narrow, (wide - 1) as nat);
        } else {
            lemma_pow256_monotone((narrow - 1) as nat, (wide - 1) as nat);
        }
    }
}

pub proof fn lemma_be_value_bound(bytes: Seq<u8>)
    ensures
        be_value(bytes) < pow256(bytes.len()),
    decreases bytes.len(),
{
    if bytes.len() > 0 {
        lemma_be_value_bound(bytes.drop_last());
    }
}

pub proof fn lemma_be_bytes_len(value: nat, width: nat)
    ensures
        be_bytes(value, width).len() == width,
    decreases width,
{
    if width > 0 {
        lemma_be_bytes_len(value / 256, (width - 1) as nat);
    }
}

/// Reading what was written gives the number back, for every number that fits.
pub proof fn law_be_bytes_then_value(value: nat, width: nat)
    requires
        value < pow256(width),
    ensures
        be_bytes(value, width).len() == width,
        be_value(be_bytes(value, width)) == value,
    decreases width,
{
    if width > 0 {
        law_be_bytes_then_value(value / 256, (width - 1) as nat);
        let bytes = be_bytes(value, width);
        assert(bytes.drop_last() == be_bytes(value / 256, (width - 1) as nat));
    }
}

/// Writing what was read gives the bytes back.
pub proof fn law_be_value_then_bytes(bytes: Seq<u8>)
    ensures
        be_bytes(be_value(bytes), bytes.len()) == bytes,
    decreases bytes.len(),
{
    if bytes.len() > 0 {
        law_be_value_then_bytes(bytes.drop_last());
        assert(bytes == bytes.drop_last().push(bytes.last()));
    }
}

/// A field reads the same where the bytes are the same.
pub proof fn lemma_field_agrees(a: Seq<u8>, b: Seq<u8>, pos: int, width: nat)
    requires
        0 <= pos,
        pos + width <= a.len(),
        pos + width <= b.len(),
        forall|k: int| pos <= k < pos + width ==> #[trigger] a[k] == b[k],
    ensures
        be_field(a, pos, width) == be_field(b, pos, width),
{
    assert(a.subrange(pos, pos + width) =~= b.subrange(pos, pos + width));
}

/// A field that was written over reads as what was written.
pub proof fn lemma_field_overwritten(bytes: Seq<u8>, pos: int, value: nat, width: nat)
    requires
        0 <= pos,
        pos + width <= bytes.len(),
        value < pow256(width),
    ensures
        be_field(overwrite(bytes, pos, be_bytes(value, width)), pos, width) == value,
{
    law_be_bytes_then_value(value, width);
    assert(overwrite(bytes, pos, be_bytes(value, width)).subrange(pos, pos + width) =~= be_bytes(
        value,
        width,
    ));
}

/// Reads the `width` bytes at `pos` as one number.
pub fn read_be(bytes: &[u8], pos: usize, width: usize) -> (value: u128)
    requires
        pos + width <= bytes@.len(),
        width <= 16,
    ensures
        value == be_field(bytes@, pos as int, width as nat),
        value < pow256(width as nat),
{
    let len: usize = bytes.len();
    let mut value: u128 = 0;
    let mut done: usize = 0;
    assert(bytes@.subrange(pos as int, pos as int) == Seq::<u8>::empty());
    while done < width
        invariant
            done <= width <= 16,
            len == bytes@.len(),
            pos + width <= len,
            value == be_field(bytes@, pos as int, done as nat),
            value < pow256(done as nat),
        decreases width - done,
    {
        proof {
            lemma_pow256_values();
            lemma_pow256_monotone((done + 1) as nat, 16);
            let next = bytes@.subrange(pos as int, pos + done + 1);
            assert(next.drop_last() == bytes@.subrange(pos as int, pos + done));
            assert(next.last() == bytes@[pos + done]);
        }
        value = value * 256 + bytes[pos + done] as u128;
        done = done + 1;
    }
    value
}

/// The `width` bytes that spell `value`.
pub fn write_be(value: u128, width: usize) -> (bytes: Vec<u8>)
    ensures
        bytes@ == be_bytes(value as nat, width as nat),
        bytes@.len() == width,
    decreases width,
{
    if width == 0 {
        Vec::new()
    } else {
        let mut bytes: Vec<u8> = write_be(value / 256, width - 1);
        bytes.push((value % 256) as u8);
        bytes
    }
}

/// Writes `patch` over what stands at `at`.
pub fn overwrite_at(bytes: &mut Vec<u8>, at: usize, patch: &Vec<u8>)
    requires
        at + patch@.len() <= old(bytes)@.len(),
    ensures
        final(bytes)@ == overwrite(old(bytes)@, at as int, patch@),
{
    let len: usize = bytes.len();
    let mut done: usize = 0;
    while done < patch.len()
        invariant
            done <= patch@.len(),
            len == old(bytes)@.len(),
            at + patch@.len() <= len,
            bytes@ == overwrite(old(bytes)@, at as int, patch@.take(done as int)),
        decreases patch@.len() - done,
    {
        bytes.set(at + done, patch[done]);
        done = done + 1;
        assert(bytes@ =~= overwrite(old(bytes)@, at as int, patch@.take(done as int)));
    }
    assert(patch@.take(patch@.len() as int) == patch@);
}

/// The two bytes at `pos` as one number, where the slice holds them both.
pub fn be16(bytes: &[u8], pos: usize) -> (value: Option<u16>)
    ensures
        match value {
            Some(value) => pos + 2 <= bytes@.len() && value == be_field(bytes@, pos as int, 2),
            None => pos + 2 > bytes@.len(),
        },
{
    if pos < bytes.len() && bytes.len() - pos >= 2 {
        proof {
            lemma_pow256_values();
        }
        Some(read_be(bytes, pos, 2) as u16)
    } else {
        None
    }
}

} // verus!
