use elytra_server::error::ProtocolError;
use elytra_server::varint::{decode, encode, encode_into, MAX_VARINT_LEN};

#[test]
fn encode_small_values_take_one_byte() {
    assert_eq!(encode(0), vec![0x00]);
    assert_eq!(encode(1), vec![0x01]);
    assert_eq!(encode(2), vec![0x02]);
    assert_eq!(encode(127), vec![0x7f]);
}

#[test]
fn encode_known_values() {
    assert_eq!(encode(128), vec![0x80, 0x01]);
    assert_eq!(encode(255), vec![0xff, 0x01]);
    assert_eq!(encode(763), vec![0xfb, 0x05]);
    assert_eq!(encode(25565), vec![0xdd, 0xc7, 0x01]);
    assert_eq!(encode(2097151), vec![0xff, 0xff, 0x7f]);
    assert_eq!(encode(2147483647), vec![0xff, 0xff, 0xff, 0xff, 0x07]);
}

#[test]
fn encode_negative_values_take_five_bytes() {
    assert_eq!(encode(-1), vec![0xff, 0xff, 0xff, 0xff, 0x0f]);
    assert_eq!(encode(-2147483648), vec![0x80, 0x80, 0x80, 0x80, 0x08]);
}

#[test]
fn encode_into_appends() {
    let mut out = vec![0xaa, 0xbb];
    encode_into(300, &mut out);
    assert_eq!(out, vec![0xaa, 0xbb, 0xac, 0x02]);
    encode_into(0, &mut out);
    assert_eq!(out, vec![0xaa, 0xbb, 0xac, 0x02, 0x00]);
}

#[test]
fn decode_known_values() {
    assert_eq!(decode(&[0x00]), Ok((0, 1)));
    assert_eq!(decode(&[0x7f]), Ok((127, 1)));
    assert_eq!(decode(&[0x80, 0x01]), Ok((128, 2)));
    assert_eq!(decode(&[0xdd, 0xc7, 0x01]), Ok((25565, 3)));
    assert_eq!(decode(&[0xff, 0xff, 0xff, 0xff, 0x07]), Ok((2147483647, 5)));
    assert_eq!(decode(&[0xff, 0xff, 0xff, 0xff, 0x0f]), Ok((-1, 5)));
    assert_eq!(decode(&[0x80, 0x80, 0x80, 0x80, 0x08]), Ok((-2147483648, 5)));
}

#[test]
fn decode_consumes_one_varint_only() {
    assert_eq!(decode(&[0x05, 0xff, 0xff]), Ok((5, 1)));
    assert_eq!(decode(&[0xac, 0x02, 0x80, 0x80, 0x80, 0x80, 0x80, 0x80]), Ok((300, 2)));
    assert_eq!(decode(&[0xff, 0xff, 0xff, 0xff, 0x07, 0x80, 0x80]), Ok((2147483647, 5)));
}

#[test]
fn decode_accepts_padded_encodings() {
    assert_eq!(decode(&[0x80, 0x00]), Ok((0, 2)));
    assert_eq!(decode(&[0x81, 0x80, 0x80, 0x80, 0x00]), Ok((1, 5)));
}

#[test]
fn decode_drops_bits_beyond_the_thirty_second() {
    assert_eq!(decode(&[0xff, 0xff, 0xff, 0xff, 0x7f]), Ok((-1, 5)));
    assert_eq!(decode(&[0x80, 0x80, 0x80, 0x80, 0x10]), Ok((0, 5)));
}

#[test]
fn decode_rejects_six_flagged_bytes() {
    assert_eq!(
        decode(&[0x80, 0x80, 0x80, 0x80, 0x80, 0x80]),
        Err(ProtocolError::MalformedVarInt)
    );
    assert_eq!(
        decode(&[0xff, 0xff, 0xff, 0xff, 0xff, 0xff, 0x01]),
        Err(ProtocolError::MalformedVarInt)
    );
}

#[test]
fn decode_rejects_a_sixth_byte_of_any_kind() {
    assert_eq!(
        decode(&[0x80, 0x80, 0x80, 0x80, 0x80, 0x01]),
        Err(ProtocolError::MalformedVarInt)
    );
}

#[test]
fn decode_of_a_source_that_ends_early() {
    assert_eq!(decode(&[]), Err(ProtocolError::UnexpectedEof));
    assert_eq!(decode(&[0x80]), Err(ProtocolError::UnexpectedEof));
    assert_eq!(decode(&[0xff, 0xff, 0xff]), Err(ProtocolError::UnexpectedEof));
    assert_eq!(decode(&[0x80, 0x80, 0x80, 0x80, 0x80]), Err(ProtocolError::UnexpectedEof));
}

#[test]
fn varint_roundtrip_on_sample_values() {
    let mut samples: Vec<i32> = vec![i32::MIN, i32::MIN + 1, -129, -128, -2, -1, 0, 1, i32::MAX - 1, i32::MAX];
    let mut power: i64 = 1;
    while power <= 0x8000_0000 {
        for delta in [-1i64, 0, 1] {
            let v: i64 = power + delta;
            if v <= i32::MAX as i64 {
                samples.push(v as i32);
                samples.push((-v) as i32);
            }
        }
        power *= 2;
    }
    let mut v: i64 = i32::MIN as i64;
    while v <= i32::MAX as i64 {
        samples.push(v as i32);
        v += 7_654_321;
    }
    for value in samples {
        let bytes = encode(value);
        assert!(1 <= bytes.len() && bytes.len() <= MAX_VARINT_LEN);
        assert_eq!(decode(&bytes), Ok((value, bytes.len())));
        let mut followed = bytes.clone();
        followed.extend_from_slice(&[0xff, 0x00, 0x80]);
        assert_eq!(decode(&followed), Ok((value, bytes.len())));
    }
}

#[test]
fn encode_length_grows_with_the_value() {
    assert_eq!(encode(127).len(), 1);
    assert_eq!(encode(128).len(), 2);
    assert_eq!(encode(16383).len(), 2);
    assert_eq!(encode(16384).len(), 3);
    assert_eq!(encode(2097151).len(), 3);
    assert_eq!(encode(2097152).len(), 4);
    assert_eq!(encode(268435455).len(), 4);
    assert_eq!(encode(268435456).len(), 5);
}
