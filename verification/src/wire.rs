//! Big-endian integers on the wire: what the bytes of a number are, and the
//! two directions between numbers and bytes.

use vstd::prelude::*;

verus! {

/// The number of values that `width` bytes can tell apart: 256 to the power `width`.
pub open spec fn span(width: nat) -> nat
    decreases width,
{
    if width == 0 {
        1
    } else {
        256 * span((width - 1) as nat)
    }
}

/// The big-endian bytes of `value` in exactly `width` bytes (the high bytes of
/// a value that does not fit are dropped).
pub open spec fn be_bytes(value: nat, width: nat) -> Seq<u8>
    decreases width,
{
    if width == 0 {
        Seq::empty()
    } else {
        be_bytes(value / 256, (width - 1) as nat).push((value % 256) as u8)
    }
}

/// The number whose big-endian bytes are `bytes`.
pub open spec fn be_value(bytes: Seq<u8>) -> nat
    decreases bytes.len(),
{
    if bytes.len() == 0 {
        0
    } else {
        be_value(bytes.drop_last()) * 256 + bytes.last() as nat
    }
}

/// The unsigned number with the same `width`-byte two's-complement bits as `value`.
pub open spec fn to_unsigned(value: int, width: nat) -> nat {
    if value < 0 {
        (value + span(width)) as nat
    } else {
        value as nat
    }
}

/// The signed number with the same `width`-byte two's-complement bits as `bits`.
pub open spec fn to_signed(bits: nat, width: nat) -> int {
    if 2 * bits >= span(width) {
        bits - span(width)
    } else {
        bits as int
    }
}

/// The values of `span` for the widths that the wire format uses.
pub proof fn lemma_span_values()
    ensures
        span(0) == 1,
        span(1) == 0x100,
        span(2) == 0x1_0000,
        span(4) == 0x1_0000_0000,
        span(8) == 0x1_0000_0000_0000_0000,
{
    reveal_with_fuel(span, 9);
}

/// `be_bytes` yields exactly `width` bytes.
pub proof fn lemma_be_bytes_len(value: nat, width: nat)
    ensures
        be_bytes(value, width).len() == width,
    decreases width,
{
    if width > 0 {
        lemma_be_bytes_len(value / 256, (width - 1) as nat);
    }
}

/// The number read from `bytes` is below `span(bytes.len())`.
pub proof fn lemma_be_value_bound(bytes: Seq<u8>)
    ensures
        be_value(bytes) < span(bytes.len()),
    decreases bytes.len(),
{
    if bytes.len() > 0 {
        lemma_be_value_bound(bytes.drop_last());
    }
}

/// Reading back the bytes of a number that fits gives the number.
pub proof fn lemma_be_value_of_bytes(value: nat, width: nat)
    requires
        value < span(width),
    ensures
        be_value(be_bytes(value, width)) == value,
    decreases width,
{
    if width > 0 {
        let rest = be_bytes(value / 256, (width - 1) as nat);
        let all = be_bytes(value, width);
        assert(all.drop_last() =~= rest);
        lemma_be_value_of_bytes(value / 256, (width - 1) as nat);
    }
}

/// Writing the number read from `bytes` in the same width gives `bytes`.
pub proof fn lemma_be_bytes_of_value(bytes: Seq<u8>)
    ensures
        be_bytes(be_value(bytes), bytes.len()) == bytes,
    decreases bytes.len(),
{
    if bytes.len() > 0 {
        lemma_be_bytes_of_value(bytes.drop_last());
        let v = be_value(bytes);
        assert(v / 256 == be_value(bytes.drop_last()));
        assert(v % 256 == bytes.last() as nat);
        assert(be_bytes(v, bytes.len()) =~= bytes);
    }
}

/// Appends the `width` big-endian bytes of `value` to `target`.
pub(crate) fn write_be(target: &mut Vec<u8>, value: u64, width: u8)
    requires
        width <= 8,
    ensures
        final(target)@ == old(target)@ + be_bytes(value as nat, width as nat),
    decreases width,
{
    if width > 0 {
        write_be(target, value / 256, width - 1);
        target.push((value % 256) as u8);
        assert(final(target)@ =~= old(target)@ + be_bytes(value as nat, width as nat));
    } else {
        assert(target@ =~= old(target)@ + be_bytes(value as nat, 0));
    }
}

/// Reads the big-endian number in the `width` bytes of `source` from `start` on.
pub(crate) fn read_be(source: &[u8], start: usize, width: u8) -> (value: u64)
    requires
        width <= 8,
        start + width <= source@.len(),
    ensures
        value as nat == be_value(source@.subrange(start as int, start + width)),
{
    let len = source.len();
    let mut value: u64 = 0;
    let mut i: u8 = 0;
    while i < width
        invariant
            i <= width <= 8,
            start + width <= source@.len() == len,
            value as nat == be_value(source@.subrange(start as int, start + i)),
        decreases width - i,
    {
        let byte = source[start + i as usize];
        proof {
            let before = source@.subrange(start as int, start + i);
            let after = source@.subrange(start as int, start + i + 1);
            assert(after.drop_last() =~= before);
            assert(after.last() == byte);
            lemma_be_value_bound(before);
            lemma_be_value_bound(after);
            lemma_span_le(after.len(), 8);
            lemma_span_values();
        }
        value = value * 256 + byte as u64;
        i = i + 1;
    }
    value
}

/// The exact number of values of a wire width, for the widths in use.
fn span_of(width: u8) -> (limit: i128)
    requires
        width == 1 || width == 2 || width == 4 || width == 8,
    ensures
        limit == span(width as nat),
{
    proof {
        lemma_span_values();
    }
    if width == 1 {
        0x100
    } else if width == 2 {
        0x1_0000
    } else if width == 4 {
        0x1_0000_0000
    } else {
        0x1_0000_0000_0000_0000
    }
}

/// The two's-complement bits of a signed number that fits in `width` bytes.
pub(crate) fn signed_bits(value: i64, width: u8) -> (bits: u64)
    requires
        width == 1 || width == 2 || width == 4 || width == 8,
        -(span(width as nat) as int) <= 2 * value < span(width as nat),
    ensures
        bits as nat == to_unsigned(value as int, width as nat),
        bits < span(width as nat),
{
    proof {
        lemma_span_values();
    }
    if value >= 0 {
        value as u64
    } else {
        (value as i128 + span_of(width)) as u64
    }
}

/// The signed number that `width` bytes of two's-complement bits stand for.
pub(crate) fn bits_signed(bits: u64, width: u8) -> (value: i64)
    requires
        width == 1 || width == 2 || width == 4 || width == 8,
        bits < span(width as nat),
    ensures
        value as int == to_signed(bits as nat, width as nat),
        -(span(width as nat) as int) <= 2 * value < span(width as nat),
{
    proof {
        lemma_span_values();
    }
    let limit = span_of(width);
    if 2 * (bits as i128) >= limit {
        (bits as i128 - limit) as i64
    } else {
        bits as i64
    }
}

/// Appends a copy of `bytes` to `target`.
pub(crate) fn write_all(target: &mut Vec<u8>, bytes: &[u8])
    ensures
        final(target)@ == old(target)@ + bytes@,
{
    let mut i: usize = 0;
    while i < bytes.len()
        invariant
            i <= bytes@.len(),
            target@ == old(target)@ + bytes@.subrange(0, i as int),
        decreases bytes@.len() - i,
    {
        target.push(bytes[i]);
        i = i + 1;
        assert(target@ =~= old(target)@ + bytes@.subrange(0, i as int));
    }
    assert(bytes@.subrange(0, i as int) =~= bytes@);
}

/// `span` grows with the width.
pub proof fn lemma_span_le(a: nat, b: nat)
    requires
        a <= b,
    ensures
        span(a) <= span(b),
    decreases b,
{
    if a < b {
        lemma_span_le(a, (b - 1) as nat);
    }
}

} // verus!
