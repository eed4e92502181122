//! The variable-length integer of the wire format.
//!
//! A 32-bit value is written seven bits at a time, least significant group
//! first. Every byte but the last carries a continuation flag in its high bit,
//! so an encoding is one to five bytes long. Negative values are written by
//! their two's complement bit pattern and always take five bytes.

use vstd::prelude::*;
use crate::error::ProtocolError;

verus! {

/// The most bytes a VarInt may occupy.
pub const MAX_VARINT_LEN: usize = 5;

/// The two's complement bit pattern of `value`, as a number below 2^32.
pub open spec fn bits_of(value: i32) -> nat {
    if value >= 0 {
        value as nat
    } else {
        (value + 0x1_0000_0000) as nat
    }
}

/// The value whose two's complement bit pattern is `bits`.
pub open spec fn value_of(bits: nat) -> i32
    recommends
        bits < 0x1_0000_0000,
{
    if bits < 0x8000_0000 {
        bits as i32
    } else {
        (bits - 0x1_0000_0000) as i32
    }
}

/// 128 to the power `exp`: the weight of the group at index `exp`.
pub open spec fn group_weight(exp: nat) -> nat
    decreases exp,
{
    if exp == 0 {
        1
    } else {
        128 * group_weight((exp - 1) as nat)
    }
}

/// The groups of a natural number, each byte but the last flagged.
pub open spec fn encode_groups(n: nat) -> Seq<u8>
    decreases n,
{
    if n < 128 {
        seq![n as u8]
    } else {
        seq![(n % 128 + 128) as u8] + encode_groups(n / 128)
    }
}

/// The encoding of `value`.
pub open spec fn spec_encode(value: i32) -> Seq<u8> {
    encode_groups(bits_of(value))
}

/// The number that the seven-bit groups of `bytes` spell, flags ignored.
pub open spec fn groups_value(bytes: Seq<u8>) -> nat
    decreases bytes.len(),
{
    if bytes.len() == 0 {
        0
    } else {
        (bytes[0] % 128) as nat + 128 * groups_value(bytes.skip(1))
    }
}

/// The length of the VarInt at the head of `source`: the position just past
/// its first unflagged byte, provided that byte is among the first `limit`.
pub open spec fn varint_len(source: Seq<u8>, limit: nat) -> Option<nat>
    decreases limit,
{
    if limit == 0 || source.len() == 0 {
        None
    } else if source[0] < 128 {
        Some(1)
    } else {
        match varint_len(source.skip(1), (limit - 1) as nat) {
            Some(n) => Some(n + 1),
            None => None,
        }
    }
}

/// What decoding the head of `source` yields: the value and the number of
/// bytes it occupies. Bits beyond the thirty-second are dropped. Five flagged
/// bytes followed by any sixth are malformed; a source that ends before an
/// unflagged byte was seen is cut short.
pub open spec fn spec_decode(source: Seq<u8>) -> Result<(i32, nat), ProtocolError> {
    match varint_len(source, 5) {
        Some(n) => Ok((value_of(groups_value(source.take(n as int)) % 0x1_0000_0000), n)),
        None => if source.len() > 5 {
            Err(ProtocolError::MalformedVarInt)
        } else {
            Err(ProtocolError::UnexpectedEof)
        },
    }
}

/// The encoding of a number below 128^`width` has at most `width` bytes, of
/// which exactly the last is unflagged, and its groups spell the number.
proof fn lemma_encode_groups_shape(n: nat, width: nat)
    requires
        width >= 1,
        n < group_weight(width),
    ensures
        1 <= encode_groups(n).len() <= width,
        encode_groups(n).last() < 128,
        forall|j: int| 0 <= j < encode_groups(n).len() - 1 ==> encode_groups(n)[j] >= 128,
        groups_value(encode_groups(n)) == n,
    decreases n,
{
    let e = encode_groups(n);
    if n < 128 {
        assert(e.skip(1) =~= Seq::<u8>::empty());
        assert(groups_value(e.skip(1)) == 0);
    } else {
        assert(group_weight(1) == 128) by {
            reveal_with_fuel(group_weight, 2);
        }
        assert(width >= 2);
        assert(group_weight(width) == 128 * group_weight((width - 1) as nat));
        lemma_encode_groups_shape(n / 128, (width - 1) as nat);
        let tail = encode_groups(n / 128);
        assert(e.skip(1) =~= tail);
        assert(e[0] % 128 == n % 128);
        assert forall|j: int| 0 <= j < e.len() - 1 implies e[j] >= 128 by {
            if j > 0 {
                assert(e[j] == tail[j - 1]);
            }
        }
        assert(e.last() == tail.last());
    }
}

/// Where the first unflagged byte of `source` is its `n`-th and lies within
/// the limit, the VarInt at the head of `source` is `n` bytes long.
proof fn lemma_varint_len_found(source: Seq<u8>, limit: nat, n: nat)
    requires
        1 <= n <= limit,
        n <= source.len(),
        source[n - 1] < 128,
        forall|j: int| 0 <= j < n - 1 ==> source[j] >= 128,
    ensures
        varint_len(source, limit) == Some(n),
    decreases limit,
{
    if n > 1 {
        let tail = source.skip(1);
        assert(tail[n - 2] == source[n - 1]);
        assert forall|j: int| 0 <= j < n - 2 implies tail[j] >= 128 by {
            assert(tail[j] == source[j + 1]);
        }
        lemma_varint_len_found(tail, (limit - 1) as nat, (n - 1) as nat);
    }
}

/// Where every byte of `source` within the limit is flagged, no VarInt ends
/// within the limit.
proof fn lemma_varint_len_none(source: Seq<u8>, limit: nat)
    requires
        forall|j: int| 0 <= j < source.len() && j < limit ==> source[j] >= 128,
    ensures
        varint_len(source, limit) is None,
    decreases limit,
{
    if limit > 0 && source.len() > 0 {
        let tail = source.skip(1);
        assert forall|j: int| 0 <= j < tail.len() && j < limit - 1 implies tail[j] >= 128 by {
            assert(tail[j] == source[j + 1]);
        }
        lemma_varint_len_none(tail, (limit - 1) as nat);
    }
}

/// One more byte adds its group at the weight of its position.
proof fn lemma_groups_value_push(bytes: Seq<u8>, last: u8)
    ensures
        groups_value(bytes.push(last)) == groups_value(bytes) + (last % 128) * group_weight(
            bytes.len(),
        ),
    decreases bytes.len(),
{
    let longer = bytes.push(last);
    if bytes.len() == 0 {
        assert(longer.skip(1) =~= Seq::<u8>::empty());
        assert(groups_value(longer.skip(1)) == 0);
        assert((last % 128) * group_weight(0) == (last % 128)) by (nonlinear_arith)
            requires
                group_weight(0) == 1,
        ;
    } else {
        let tail = bytes.skip(1);
        assert(longer.skip(1) =~= tail.push(last));
        lemma_groups_value_push(tail, last);
        let g = (last % 128) as int;
        let w = group_weight(tail.len()) as int;
        assert(128 * (g * w) == g * (128 * w)) by (nonlinear_arith);
        assert(g * group_weight(bytes.len()) == g * (128 * w));
        assert(longer[0] == bytes[0]);
    }
}

/// The groups of `bytes` spell a number below 128^`bytes.len()`.
proof fn lemma_groups_value_bound(bytes: Seq<u8>)
    ensures
        groups_value(bytes) < group_weight(bytes.len()),
    decreases bytes.len(),
{
    if bytes.len() > 0 {
        lemma_groups_value_bound(bytes.skip(1));
    }
}

/// A VarInt that decodes occupies one to five bytes, all of them within the
/// source.
pub proof fn lemma_decoded_len(source: Seq<u8>)
    ensures
        spec_decode(source) matches Ok((_, len)) ==> 1 <= len <= 5 && len <= source.len(),
{
    lemma_varint_len_bound(source, 5);
}

/// The VarInt at the head of a source ends within the limit and the source.
proof fn lemma_varint_len_bound(source: Seq<u8>, limit: nat)
    ensures
        varint_len(source, limit) matches Some(n) ==> 1 <= n <= limit && n <= source.len(),
    decreases limit,
{
    if limit > 0 && source.len() > 0 && source[0] >= 128 {
        lemma_varint_len_bound(source.skip(1), (limit - 1) as nat);
    }
}

/// Decoding inverts encoding: the encoding of any value decodes to that value
/// and to the length of the encoding.
pub proof fn lemma_decode_encode(value: i32)
    ensures
        spec_decode(spec_encode(value)) == Ok::<(i32, nat), ProtocolError>(
            (value, spec_encode(value).len()),
        ),
{
    lemma_decode_encode_prefix(value, Seq::empty());
    assert(spec_encode(value) + Seq::<u8>::empty() =~= spec_encode(value));
}

/// Decoding reads exactly one encoding: whatever bytes follow the encoding of
/// a value, decoding yields the value and the length of the encoding alone.
pub proof fn lemma_decode_encode_prefix(value: i32, rest: Seq<u8>)
    ensures
        1 <= spec_encode(value).len() <= 5,
        spec_decode(spec_encode(value) + rest) == Ok::<(i32, nat), ProtocolError>(
            (value, spec_encode(value).len()),
        ),
{
    let bits = bits_of(value);
    let e = spec_encode(value);
    assert(group_weight(5) == 0x8_0000_0000) by {
        reveal_with_fuel(group_weight, 6);
    }
    lemma_encode_groups_shape(bits, 5);
    let source = e + rest;
    assert(source[e.len() - 1] == e.last());
    assert forall|j: int| 0 <= j < e.len() - 1 implies source[j] >= 128 by {
        assert(source[j] == e[j]);
    }
    lemma_varint_len_found(source, 5, e.len());
    assert(source.take(e.len() as int) =~= e);
}

/// A VarInt that ends within the limit is not changed by bytes that follow
/// the source.
proof fn lemma_varint_len_more_bytes(source: Seq<u8>, more: Seq<u8>, limit: nat)
    requires
        varint_len(source, limit) is Some,
    ensures
        varint_len(source + more, limit) == varint_len(source, limit),
    decreases limit,
{
    assert((source + more)[0] == source[0]);
    if source[0] >= 128 {
        assert((source + more).skip(1) =~= source.skip(1) + more);
        lemma_varint_len_more_bytes(source.skip(1), more, (limit - 1) as nat);
    }
}

/// Where no VarInt ends within the limit although the source reaches it,
/// every byte within the limit is flagged.
proof fn lemma_varint_len_none_flagged(source: Seq<u8>, limit: nat)
    requires
        varint_len(source, limit) is None,
        source.len() >= limit,
    ensures
        forall|j: int| 0 <= j < limit ==> source[j] >= 128,
    decreases limit,
{
    if limit > 0 {
        let tail = source.skip(1);
        lemma_varint_len_none_flagged(tail, (limit - 1) as nat);
        assert forall|j: int| 0 <= j < limit implies source[j] >= 128 by {
            if j > 0 {
                assert(source[j] == tail[j - 1]);
            }
        }
    }
}

/// Decoding never changes its mind: once a source holds a whole VarInt, or
/// is found malformed, bytes that arrive behind it change nothing.
pub proof fn lemma_decode_more_bytes(source: Seq<u8>, more: Seq<u8>)
    requires
        spec_decode(source) != Err::<(i32, nat), ProtocolError>(ProtocolError::UnexpectedEof),
    ensures
        spec_decode(source + more) == spec_decode(source),
{
    match varint_len(source, 5) {
        Some(n) => {
            lemma_varint_len_bound(source, 5);
            lemma_varint_len_more_bytes(source, more, 5);
            assert((source + more).take(n as int) =~= source.take(n as int));
        },
        None => {
            lemma_varint_len_none_flagged(source, 5);
            assert forall|j: int| 0 <= j < (source + more).len() && j < 5 implies (source
                + more)[j] >= 128 by {
                assert((source + more)[j] == source[j]);
            }
            lemma_varint_len_none(source + more, 5);
        },
    }
}

/// Five flagged bytes followed by a sixth byte of any kind are rejected as
/// malformed, whatever comes after them.
pub proof fn lemma_sixth_byte_malformed(source: Seq<u8>)
    requires
        source.len() >= 6,
        forall|j: int| 0 <= j < 5 ==> source[j] >= 128,
    ensures
        spec_decode(source) == Err::<(i32, nat), ProtocolError>(ProtocolError::MalformedVarInt),
{
    lemma_varint_len_none(source, 5);
}

/// A source that starts with six flagged bytes is rejected as malformed.
pub proof fn lemma_six_flagged_bytes_malformed(source: Seq<u8>)
    requires
        source.len() >= 6,
        forall|j: int| 0 <= j < 6 ==> source[j] >= 128,
    ensures
        spec_decode(source) == Err::<(i32, nat), ProtocolError>(ProtocolError::MalformedVarInt),
{
    lemma_sixth_byte_malformed(source);
}

/// Appends the encoding of `value` to `out`.
pub fn encode_into(value: i32, out: &mut Vec<u8>)
    ensures
        final(out)@ == old(out)@ + spec_encode(value),
{
    let bits: u32 = if value >= 0 {
        value as u32
    } else {
        (value as i64 + 0x1_0000_0000) as u32
    };
    let ghost start = out@;
    let mut rest: u32 = bits;
    while rest >= 128
        invariant
            out@ + encode_groups(rest as nat) =~= start + encode_groups(bits as nat),
        decreases rest,
    {
        let ghost before = out@;
        out.push((rest % 128) as u8 + 128);
        proof {
            let group = seq![(rest as nat % 128 + 128) as u8];
            assert(encode_groups(rest as nat) == group + encode_groups(rest as nat / 128));
            assert(out@ =~= before + group);
            assert(out@ + encode_groups(rest as nat / 128) =~= before + encode_groups(
                rest as nat,
            ));
        }
        rest = rest / 128;
    }
    let ghost before = out@;
    out.push(rest as u8);
    proof {
        assert(out@ =~= before + encode_groups(rest as nat));
    }
}

/// Encodes `value` in one to five bytes.
pub fn encode(value: i32) -> (bytes: Vec<u8>)
    ensures
        bytes@ == spec_encode(value),
        1 <= bytes@.len() <= 5,
{
    let mut bytes: Vec<u8> = Vec::new();
    encode_into(value, &mut bytes);
    proof {
        lemma_decode_encode_prefix(value, Seq::empty());
        assert(Seq::<u8>::empty() + spec_encode(value) =~= spec_encode(value));
    }
    bytes
}

/// Decodes the VarInt at the head of `source`, and says how many bytes it
/// occupies. Bytes after it are not looked at, but for the sixth byte that
/// shows a run of five flagged bytes to be malformed.
pub fn decode(source: &[u8]) -> (res: Result<(i32, usize), ProtocolError>)
    ensures
        match res {
            Ok((value, len)) => spec_decode(source@) == Ok::<(i32, nat), ProtocolError>(
                (value, len as nat),
            ),
            Err(e) => spec_decode(source@) == Err::<(i32, nat), ProtocolError>(e),
        },
        res matches Ok((_, len)) ==> 1 <= len <= 5 && len <= source@.len(),
{
    let mut bits: u64 = 0;
    let mut weight: u64 = 1;
    let mut i: usize = 0;
    proof {
        reveal_with_fuel(group_weight, 6);
        assert(source@.take(0) =~= Seq::<u8>::empty());
    }
    while i < MAX_VARINT_LEN && i < source.len()
        invariant
            i <= 5,
            i <= source@.len(),
            weight == group_weight(i as nat),
            bits == groups_value(source@.take(i as int)),
            forall|j: int| 0 <= j < i ==> source@[j] >= 128,
        decreases 5 - i,
    {
        let byte = source[i];
        let group: u64 = (byte % 128) as u64;
        proof {
            reveal_with_fuel(group_weight, 6);
            lemma_groups_value_bound(source@.take(i as int));
            lemma_groups_value_push(source@.take(i as int), byte);
            assert(source@.take(i as int).push(byte) =~= source@.take(i + 1));
            assert(weight <= 0x1000_0000);
            assert(group * weight <= 127 * 0x1000_0000) by (nonlinear_arith)
                requires
                    group <= 127,
                    weight <= 0x1000_0000,
            ;
        }
        bits = bits + group * weight;
        i = i + 1;
        if byte < 128 {
            proof {
                lemma_varint_len_found(source@, 5, i as nat);
            }
            let low: u64 = bits % 0x1_0000_0000;
            let value: i32 = if low < 0x8000_0000 {
                low as i32
            } else {
                (low as i64 - 0x1_0000_0000) as i32
            };
            return Ok((value, i));
        }
        weight = weight * 128;
    }
    proof {
        lemma_varint_len_none(source@, 5);
    }
    if source.len() > MAX_VARINT_LEN {
        Err(ProtocolError::MalformedVarInt)
    } else {
        Err(ProtocolError::UnexpectedEof)
    }
}

} // verus!
