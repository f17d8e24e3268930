//! Unsigned integers as little-endian byte strings.
//!
//! Every multi-byte number of the container format is stored least
//! significant byte first. The model is arithmetic: a byte string spells the
//! number `b0 + 256 * b1 + 256^2 * b2 + ...`.

use vstd::prelude::*;

verus! {

/// `256` raised to `width`: one more than the largest number that `width`
/// bytes can spell.
pub open spec fn radix(width: nat) -> nat
    decreases width,
{
    if width == 0 {
        1
    } else {
        256 * radix((width - 1) as nat)
    }
}

/// The `width` low-order bytes of `value`, least significant first.
pub open spec fn le_bytes(value: nat, width: nat) -> Seq<u8>
    decreases width,
{
    if width == 0 {
        Seq::empty()
    } else {
        seq![(value % 256) as u8] + le_bytes(value / 256, (width - 1) as nat)
    }
}

/// The number spelled by `bytes`, least significant byte first.
pub open spec fn le_value(bytes: Seq<u8>) -> nat
    decreases bytes.len(),
{
    if bytes.len() == 0 {
        0
    } else {
        bytes[0] as nat + 256 * le_value(bytes.drop_first())
    }
}

/// The powers of 256 that the format uses.
pub proof fn lemma_radix_values()
    ensures
        radix(0) == 1,
        radix(1) == 0x100,
        radix(2) == 0x1_0000,
        radix(4) == 0x1_0000_0000,
        radix(8) == 0x1_0000_0000_0000_0000,
{
    reveal_with_fuel(radix, 9);
}

/// An encoding has exactly the width asked for.
pub proof fn lemma_le_bytes_len(value: nat, width: nat)
    ensures
        le_bytes(value, width).len() == width,
    decreases width,
{
    if width > 0 {
        lemma_le_bytes_len(value / 256, (width - 1) as nat);
    }
}

/// Decoding undoes encoding for every number that fits the width.
pub proof fn lemma_le_value_of_le_bytes(value: nat, width: nat)
    requires
        value < radix(width),
    ensures
        le_value(le_bytes(value, width)) == value,
    decreases width,
{
    if width > 0 {
        let rest = le_bytes(value / 256, (width - 1) as nat);
        let all = le_bytes(value, width);
        lemma_le_value_of_le_bytes(value / 256, (width - 1) as nat);
        assert(all.drop_first() =~= rest);
        assert(all[0] == (value % 256) as u8);
    }
}

/// Appends the two bytes of `value` to `out`.
pub fn put_u16(out: &mut Vec<u8>, value: u16)
    ensures
        final(out)@ == old(out)@ + le_bytes(value as nat, 2),
{
    out.push((value % 256) as u8);
    out.push((value / 256) as u8);
    proof {
        reveal_with_fuel(le_bytes, 3);
        assert(out@ =~= old(out)@ + le_bytes(value as nat, 2));
    }
}

/// Appends the four bytes of `value` to `out`.
pub fn put_u32(out: &mut Vec<u8>, value: u32)
    ensures
        final(out)@ == old(out)@ + le_bytes(value as nat, 4),
{
    let b0: u32 = value;
    let b1: u32 = b0 / 256;
    let b2: u32 = b1 / 256;
    let b3: u32 = b2 / 256;
    out.push((b0 % 256) as u8);
    out.push((b1 % 256) as u8);
    out.push((b2 % 256) as u8);
    out.push((b3 % 256) as u8);
    proof {
        reveal_with_fuel(le_bytes, 5);
        assert(out@ =~= old(out)@ + le_bytes(value as nat, 4));
    }
}

/// Appends the eight bytes of `value` to `out`.
pub fn put_u64(out: &mut Vec<u8>, value: u64)
    ensures
        final(out)@ == old(out)@ + le_bytes(value as nat, 8),
{
    let b0: u64 = value;
    let b1: u64 = b0 / 256;
    let b2: u64 = b1 / 256;
    let b3: u64 = b2 / 256;
    let b4: u64 = b3 / 256;
    let b5: u64 = b4 / 256;
    let b6: u64 = b5 / 256;
    let b7: u64 = b6 / 256;
    out.push((b0 % 256) as u8);
    out.push((b1 % 256) as u8);
    out.push((b2 % 256) as u8);
    out.push((b3 % 256) as u8);
    out.push((b4 % 256) as u8);
    out.push((b5 % 256) as u8);
    out.push((b6 % 256) as u8);
    out.push((b7 % 256) as u8);
    proof {
        reveal_with_fuel(le_bytes, 9);
        assert(out@ =~= old(out)@ + le_bytes(value as nat, 8));
    }
}

/// A byte string spells the number of its front part plus `256^n` times the
/// number of the rest, where `n` is the length of the front part.
pub proof fn lemma_le_value_concat(front: Seq<u8>, rest: Seq<u8>)
    ensures
        le_value(front + rest) == le_value(front) + radix(front.len()) * le_value(rest),
    decreases front.len(),
{
    let hi = le_value(rest);
    if front.len() == 0 {
        assert(front + rest =~= rest);
        assert(radix(0) == 1);
        assert(1 * hi == hi);
    } else {
        let tail = front.drop_first();
        lemma_le_value_concat(tail, rest);
        assert((front + rest).drop_first() =~= tail + rest);
        assert((front + rest)[0] == front[0]);
        let r = radix(tail.len());
        let lo = le_value(tail);
        assert(radix(front.len()) == 256 * r);
        assert(le_value(front + rest) == front[0] as nat + 256 * (lo + r * hi));
        assert(256 * (lo + r * hi) == 256 * lo + (256 * r) * hi) by (nonlinear_arith);
    }
}

/// Reads the two-byte number that starts at `at`.
pub fn get_u16(bytes: &[u8], at: usize) -> (value: u16)
    requires
        at + 2 <= bytes@.len(),
    ensures
        value == le_value(bytes@.subrange(at as int, at + 2)),
{
    let b0: u16 = bytes[at] as u16;
    let b1: u16 = bytes[at + 1] as u16;
    proof {
        let s = bytes@.subrange(at as int, at + 2);
        reveal_with_fuel(le_value, 3);
        assert(s.drop_first().drop_first().len() == 0);
        assert(s[0] == bytes@[at as int] && s.drop_first()[0] == bytes@[at + 1]);
    }
    b0 + 256 * b1
}

/// Reads the four-byte number that starts at `at`.
pub fn get_u32(bytes: &[u8], at: usize) -> (value: u32)
    requires
        at + 4 <= bytes@.len(),
    ensures
        value == le_value(bytes@.subrange(at as int, at + 4)),
{
    assert(bytes@.len() <= usize::MAX) by {
        vstd::slice::axiom_spec_len(bytes);
    }
    let low: u32 = get_u16(bytes, at) as u32;
    let high: u32 = get_u16(bytes, at + 2) as u32;
    proof {
        let s = bytes@.subrange(at as int, at + 4);
        let low_part = bytes@.subrange(at as int, at + 2);
        let high_part = bytes@.subrange(at + 2, at + 4);
        assert(s =~= low_part + high_part);
        lemma_le_value_concat(low_part, high_part);
        lemma_radix_values();
    }
    low + 0x1_0000 * high
}

/// Reads the eight-byte number that starts at `at`.
pub fn get_u64(bytes: &[u8], at: usize) -> (value: u64)
    requires
        at + 8 <= bytes@.len(),
    ensures
        value == le_value(bytes@.subrange(at as int, at + 8)),
{
    assert(bytes@.len() <= usize::MAX) by {
        vstd::slice::axiom_spec_len(bytes);
    }
    let low: u64 = get_u32(bytes, at) as u64;
    let high: u64 = get_u32(bytes, at + 4) as u64;
    proof {
        let s = bytes@.subrange(at as int, at + 8);
        let low_part = bytes@.subrange(at as int, at + 4);
        let high_part = bytes@.subrange(at + 4, at + 8);
        assert(s =~= low_part + high_part);
        lemma_le_value_concat(low_part, high_part);
        lemma_radix_values();
    }
    low + 0x1_0000_0000 * high
}

} // verus!
