//! Fixed-width integers in network byte order: the most significant byte
//! comes first.

use vstd::prelude::*;

verus! {

/// 256 to the power `width`: one more than the largest number that `width`
/// bytes can hold.
pub open spec fn byte_weight(width: nat) -> nat
    decreases width,
{
    if width == 0 {
        1
    } else {
        256 * byte_weight((width - 1) as nat)
    }
}

/// The `width` low-order bytes of `n`, most significant first.
pub open spec fn be_bytes(n: nat, width: nat) -> Seq<u8>
    decreases width,
{
    if width == 0 {
        Seq::empty()
    } else {
        be_bytes(n / 256, (width - 1) as nat).push((n % 256) as u8)
    }
}

/// The number that `bytes` spell, most significant first.
pub open spec fn be_value(bytes: Seq<u8>) -> nat
    decreases bytes.len(),
{
    if bytes.len() == 0 {
        0
    } else {
        256 * be_value(bytes.drop_last()) + bytes.last() as nat
    }
}

/// The two's complement bit pattern of `value`, as a number below 2^64.
pub open spec fn i64_bits(value: i64) -> nat {
    if value >= 0 {
        value as nat
    } else {
        (value + 0x1_0000_0000_0000_0000) as nat
    }
}

/// The value whose two's complement bit pattern is `bits`.
pub open spec fn i64_of_bits(bits: nat) -> i64
    recommends
        bits < 0x1_0000_0000_0000_0000,
{
    if bits < 0x8000_0000_0000_0000 {
        bits as i64
    } else {
        (bits - 0x1_0000_0000_0000_0000) as i64
    }
}

/// The two bytes of an unsigned 16-bit number.
pub open spec fn spec_u16_to_be(value: u16) -> Seq<u8> {
    be_bytes(value as nat, 2)
}

/// The unsigned 16-bit number that two bytes spell.
pub open spec fn spec_u16_from_be(bytes: Seq<u8>) -> u16
    recommends
        bytes.len() == 2,
{
    be_value(bytes) as u16
}

/// The eight bytes of a signed 64-bit number.
pub open spec fn spec_i64_to_be(value: i64) -> Seq<u8> {
    be_bytes(i64_bits(value), 8)
}

/// The signed 64-bit number that eight bytes spell.
pub open spec fn spec_i64_from_be(bytes: Seq<u8>) -> i64
    recommends
        bytes.len() == 8,
{
    i64_of_bits(be_value(bytes))
}

/// `be_bytes` yields exactly `width` bytes.
proof fn lemma_be_bytes_len(n: nat, width: nat)
    ensures
        be_bytes(n, width).len() == width,
    decreases width,
{
    if width > 0 {
        lemma_be_bytes_len(n / 256, (width - 1) as nat);
    }
}

/// Bytes spell a number below 256^`bytes.len()`.
proof fn lemma_be_value_bound(bytes: Seq<u8>)
    ensures
        be_value(bytes) < byte_weight(bytes.len()),
    decreases bytes.len(),
{
    if bytes.len() > 0 {
        lemma_be_value_bound(bytes.drop_last());
    }
}

/// The bytes of a number that fits in `width` bytes spell that number.
proof fn lemma_be_value_be_bytes(n: nat, width: nat)
    requires
        n < byte_weight(width),
    ensures
        be_value(be_bytes(n, width)) == n,
    decreases width,
{
    if width > 0 {
        let front = be_bytes(n / 256, (width - 1) as nat);
        lemma_be_value_be_bytes(n / 256, (width - 1) as nat);
        assert(be_bytes(n, width).drop_last() =~= front);
    }
}

/// Reading back the bytes of a 16-bit number gives the number.
pub proof fn lemma_u16_roundtrip(value: u16)
    ensures
        spec_u16_to_be(value).len() == 2,
        spec_u16_from_be(spec_u16_to_be(value)) == value,
{
    reveal_with_fuel(byte_weight, 3);
    lemma_be_bytes_len(value as nat, 2);
    lemma_be_value_be_bytes(value as nat, 2);
}

/// Reading back the bytes of a signed 64-bit number gives the number.
pub proof fn lemma_i64_roundtrip(value: i64)
    ensures
        spec_i64_to_be(value).len() == 8,
        spec_i64_from_be(spec_i64_to_be(value)) == value,
{
    reveal_with_fuel(byte_weight, 9);
    lemma_be_bytes_len(i64_bits(value), 8);
    lemma_be_value_be_bytes(i64_bits(value), 8);
}

/// Appends the two bytes of `value` to `out`.
pub fn put_u16(value: u16, out: &mut Vec<u8>)
    ensures
        final(out)@ == old(out)@ + spec_u16_to_be(value),
{
    let ghost start = out@;
    out.push((value / 256) as u8);
    out.push((value % 256) as u8);
    proof {
        reveal_with_fuel(be_bytes, 3);
        assert(out@ =~= start + spec_u16_to_be(value));
    }
}

/// Appends the eight bytes of `value` to `out`.
pub fn put_i64(value: i64, out: &mut Vec<u8>)
    ensures
        final(out)@ == old(out)@ + spec_i64_to_be(value),
{
    let bits: u64 = if value >= 0 {
        value as u64
    } else {
        (value as i128 + 0x1_0000_0000_0000_0000) as u64
    };
    let mut bytes: Vec<u8> = vec![0u8; 8];
    let mut rest: u64 = bits;
    let mut k: usize = 8;
    while k > 0
        invariant
            k <= 8,
            bytes@.len() == 8,
            be_bytes(bits as nat, 8) =~= be_bytes(rest as nat, k as nat) + bytes@.skip(k as int),
        decreases k,
    {
        let ghost written = bytes@.skip(k as int);
        k = k - 1;
        bytes.set(k, (rest % 256) as u8);
        proof {
            assert(bytes@.skip(k as int) =~= seq![(rest % 256) as u8] + written);
        }
        rest = rest / 256;
    }
    proof {
        assert(bytes@.skip(0) =~= bytes@);
    }
    out.extend_from_slice(bytes.as_slice());
}

/// Reads an unsigned 16-bit number from the first two bytes of `source`;
/// `None` where `source` is shorter.
pub fn get_u16(source: &[u8]) -> (res: Option<u16>)
    ensures
        res == (if source@.len() < 2 {
            None
        } else {
            Some(spec_u16_from_be(source@.take(2)))
        }),
{
    if source.len() < 2 {
        return None;
    }
    let high: u16 = source[0] as u16;
    let low: u16 = source[1] as u16;
    proof {
        reveal_with_fuel(be_value, 3);
        let pair = source@.take(2);
        assert(pair.drop_last() =~= seq![source@[0]]);
        assert(pair.drop_last().drop_last() =~= Seq::<u8>::empty());
    }
    Some(high * 256 + low)
}

/// Reads a signed 64-bit number from the first eight bytes of `source`;
/// `None` where `source` is shorter.
pub fn get_i64(source: &[u8]) -> (res: Option<i64>)
    ensures
        res == (if source@.len() < 8 {
            None
        } else {
            Some(spec_i64_from_be(source@.take(8)))
        }),
{
    if source.len() < 8 {
        return None;
    }
    let mut bits: u64 = 0;
    let mut i: usize = 0;
    proof {
        assert(source@.take(0) =~= Seq::<u8>::empty());
    }
    while i < 8
        invariant
            i <= 8,
            source@.len() >= 8,
            bits == be_value(source@.take(i as int)),
        decreases 8 - i,
    {
        proof {
            reveal_with_fuel(byte_weight, 9);
            lemma_be_value_bound(source@.take(i as int));
            assert(source@.take(i + 1).drop_last() =~= source@.take(i as int));
        }
        bits = bits * 256 + source[i] as u64;
        i = i + 1;
    }
    let value: i64 = if bits < 0x8000_0000_0000_0000 {
        bits as i64
    } else {
        (bits as i128 - 0x1_0000_0000_0000_0000) as i64
    };
    Some(value)
}

} // verus!
