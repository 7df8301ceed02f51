//! Little-endian numbers in byte strings.

use vstd::prelude::*;

verus! {

/// 256 to the power `n`: how many values `n` bytes can tell apart.
pub open spec fn radix(n: nat) -> nat
    decreases n,
{
    if n == 0 {
        1
    } else {
        256 * radix((n - 1) as nat)
    }
}

/// The `width` low bytes of `value`, least significant first.
pub open spec fn le_bytes(value: nat, width: nat) -> Seq<u8>
    decreases width,
{
    if width == 0 {
        Seq::empty()
    } else {
        seq![(value % 256) as u8] + le_bytes(value / 256, (width - 1) as nat)
    }
}

/// The number that `bytes` spell, least significant byte first.
pub open spec fn le_value(bytes: Seq<u8>) -> nat
    decreases bytes.len(),
{
    if bytes.len() == 0 {
        0
    } else {
        bytes[0] as nat + 256 * le_value(bytes.drop_first())
    }
}

/// `le_bytes` gives as many bytes as asked for.
pub proof fn lemma_le_bytes_len(value: nat, width: nat)
    ensures
        le_bytes(value, width).len() == width,
    decreases width,
{
    if width > 0 {
        lemma_le_bytes_len(value / 256, (width - 1) as nat);
    }
}

/// A byte string spells a number below the radix of its length.
pub proof fn lemma_le_value_bound(bytes: Seq<u8>)
    ensures
        le_value(bytes) < radix(bytes.len()),
    decreases bytes.len(),
{
    if bytes.len() > 0 {
        lemma_le_value_bound(bytes.drop_first());
    }
}

/// The bytes of a number spell that number again, where they are enough to
/// hold it.
pub proof fn lemma_le_round_trip(value: nat, width: nat)
    requires
        value < radix(width),
    ensures
        le_value(le_bytes(value, width)) == value,
    decreases width,
{
    if width > 0 {
        let rest = le_bytes(value / 256, (width - 1) as nat);
        let all = le_bytes(value, width);
        assert(all.drop_first() =~= rest);
        lemma_le_round_trip(value / 256, (width - 1) as nat);
    }
}

/// The number that bytes spell has exactly those bytes.
pub proof fn lemma_le_bytes_of_value(bytes: Seq<u8>)
    ensures
        le_bytes(le_value(bytes), bytes.len()) == bytes,
    decreases bytes.len(),
{
    if bytes.len() > 0 {
        let rest = bytes.drop_first();
        lemma_le_bytes_of_value(rest);
        let v = le_value(bytes);
        assert(v % 256 == bytes[0] as nat);
        assert(v / 256 == le_value(rest));
        assert(le_bytes(v, bytes.len()) =~= bytes);
    } else {
        assert(le_bytes(le_value(bytes), 0) =~= bytes);
    }
}

/// Four bytes hold every 32-bit number, eight every 64-bit number.
pub proof fn lemma_radix_of_words()
    ensures
        radix(4) == 0x1_0000_0000,
        radix(8) == 0x1_0000_0000_0000_0000,
{
    reveal_with_fuel(radix, 9);
}

/// Appends the four bytes of `value`, least significant first.
pub fn put_u32(out: &mut Vec<u8>, value: u32)
    ensures
        final(out)@ == old(out)@ + le_bytes(value as nat, 4),
{
    put_le(out, value as u64, 4);
}

/// Appends the eight bytes of `value`, least significant first.
pub fn put_u64(out: &mut Vec<u8>, value: u64)
    ensures
        final(out)@ == old(out)@ + le_bytes(value as nat, 8),
{
    put_le(out, value, 8);
}

/// Appends the `width` low bytes of `value`, least significant first.
fn put_le(out: &mut Vec<u8>, value: u64, width: usize)
    ensures
        final(out)@ == old(out)@ + le_bytes(value as nat, width as nat),
{
    let mut rest: u64 = value;
    let mut i: usize = 0;
    assert(out@ + le_bytes(value as nat, width as nat) =~= old(out)@ + le_bytes(
        value as nat,
        width as nat,
    ));
    while i < width
        invariant
            i <= width,
            out@ + le_bytes(rest as nat, (width - i) as nat) == old(out)@ + le_bytes(
                value as nat,
                width as nat,
            ),
        decreases width - i,
    {
        let ghost before = out@;
        let byte: u8 = (rest % 256) as u8;
        out.push(byte);
        assert(before + le_bytes(rest as nat, (width - i) as nat) =~= out@ + le_bytes(
            (rest / 256) as nat,
            (width - i - 1) as nat,
        ));
        rest = rest / 256;
        i = i + 1;
    }
    assert(out@ + le_bytes(rest as nat, 0) =~= out@);
}

/// Reads the 32-bit number that stands at `start`.
pub fn get_u32(bytes: &[u8], start: usize) -> (value: u32)
    requires
        start + 4 <= bytes.len(),
    ensures
        value == le_value(bytes@.subrange(start as int, start + 4)),
{
    proof {
        lemma_radix_of_words();
        lemma_le_value_bound(bytes@.subrange(start as int, start + 4));
    }
    get_le(bytes, start, 4) as u32
}

/// Reads the 64-bit number that stands at `start`.
pub fn get_u64(bytes: &[u8], start: usize) -> (value: u64)
    requires
        start + 8 <= bytes.len(),
    ensures
        value == le_value(bytes@.subrange(start as int, start + 8)),
{
    get_le(bytes, start, 8)
}

/// Reads the number that the `width` bytes from `start` spell.
fn get_le(bytes: &[u8], start: usize, width: usize) -> (value: u64)
    requires
        width <= 8,
        start + width <= bytes.len(),
    ensures
        value == le_value(bytes@.subrange(start as int, start + width)),
{
    let mut value: u64 = 0;
    let mut left: usize = width;
    assert(bytes@.subrange(start + width, start + width) =~= Seq::<u8>::empty());
    while left > 0
        invariant
            left <= width <= 8,
            start + width <= bytes.len(),
            value == le_value(bytes@.subrange(start + left, start + width)),
        decreases left,
    {
        let ghost tail = bytes@.subrange(start + left, start + width);
        let ghost grown = bytes@.subrange(start + left - 1, start + width);
        proof {
            lemma_le_value_bound(tail);
            lemma_radix_grows((width - left) as nat, 7);
            reveal_with_fuel(radix, 9);
            assert(grown.drop_first() =~= tail);
        }
        left = left - 1;
        value = value * 256 + bytes[start + left] as u64;
    }
    value
}

/// A longer byte string can tell more values apart.
pub proof fn lemma_radix_grows(a: nat, b: nat)
    requires
        a <= b,
    ensures
        radix(a) <= radix(b),
    decreases b,
{
    if a < b {
        lemma_radix_grows(a, (b - 1) as nat);
    }
}

} // verus!
