//! The messages of the protocol and their layout inside a packet body.
//!
//! A body is the packet id as a VarInt, followed by the fields of the frame.
//! Strings are their UTF-8 bytes behind a VarInt byte count; the port and the
//! ping payload are fixed-width and big-endian; all other numbers are VarInts.

use vstd::prelude::*;
use vstd::slice::slice_subrange;
use vstd::utf8::{decode_utf8, encode_utf8, valid_utf8};
use crate::endian::{
    get_i64, get_u16, lemma_i64_roundtrip, lemma_u16_roundtrip, put_i64, put_u16, spec_i64_from_be,
    spec_i64_to_be, spec_u16_from_be, spec_u16_to_be,
};
use crate::error::ProtocolError;
use crate::phase::SessionPhase;
use crate::varint::{decode, encode_into, lemma_decode_encode_prefix, spec_decode, spec_encode};

verus! {

/// The most bytes a string may have when it is read from a packet.
pub const MAX_STRING_LEN: usize = 255;

/// The most bytes a string may have when it is written: the largest count a
/// VarInt can announce.
pub const MAX_ENCODED_STRING_LEN: usize = 0x7fff_ffff;

/// The `next_state` of a handshake that asks for the server's status.
pub const NEXT_STATE_STATUS: i32 = 1;

/// The `next_state` of a handshake that asks to log in.
pub const NEXT_STATE_LOGIN: i32 = 2;

/// The `next_state` of a handshake that asks for a transfer.
pub const NEXT_STATE_TRANSFER: i32 = 3;

/// The packet id of a handshake, of a status request and of a status
/// response.
pub const HANDSHAKE_ID: i32 = 0;

/// The packet id of a ping request and of a ping response.
pub const PING_ID: i32 = 1;

/// One message of the protocol.
#[derive(Clone, Debug, PartialEq, Eq)]
pub enum Frame {
    /// Opens a session and says which phase the client wants next.
    Handshake { protocol_version: i32, server_address: String, server_port: u16, next_state: i32 },
    /// Asks for the server's status.
    StatusRequest,
    /// Answers a status request with the server's description.
    StatusResponse { json: String },
    /// Asks for the payload to be sent back.
    PingRequest { payload: i64 },
    /// Sends the payload of a ping request back.
    PingResponse { payload: i64 },
}

/// A frame as a mathematical value: its strings are sequences of characters.
pub enum FrameView {
    Handshake {
        protocol_version: i32,
        server_address: Seq<char>,
        server_port: u16,
        next_state: i32,
    },
    StatusRequest,
    StatusResponse { json: Seq<char> },
    PingRequest { payload: i64 },
    PingResponse { payload: i64 },
}

impl View for Frame {
    type V = FrameView;

    open spec fn view(&self) -> FrameView {
        match self {
            Frame::Handshake { protocol_version, server_address, server_port, next_state } => {
                FrameView::Handshake {
                    protocol_version: *protocol_version,
                    server_address: server_address@,
                    server_port: *server_port,
                    next_state: *next_state,
                }
            },
            Frame::StatusRequest => FrameView::StatusRequest,
            Frame::StatusResponse { json } => FrameView::StatusResponse { json: json@ },
            Frame::PingRequest { payload } => FrameView::PingRequest { payload: *payload },
            Frame::PingResponse { payload } => FrameView::PingResponse { payload: *payload },
        }
    }
}

/// The packet id under which a frame travels.
pub open spec fn packet_id(frame: FrameView) -> i32 {
    match frame {
        FrameView::Handshake { .. } => HANDSHAKE_ID,
        FrameView::StatusRequest => HANDSHAKE_ID,
        FrameView::StatusResponse { .. } => HANDSHAKE_ID,
        FrameView::PingRequest { .. } => PING_ID,
        FrameView::PingResponse { .. } => PING_ID,
    }
}

/// Whether a string can be written: its byte count must fit a VarInt.
pub open spec fn string_encodable(text: Seq<char>) -> bool {
    encode_utf8(text).len() <= MAX_ENCODED_STRING_LEN
}

/// A string on the wire: its byte count, then its UTF-8 bytes.
pub open spec fn spec_encode_string(text: Seq<char>) -> Seq<u8> {
    spec_encode(encode_utf8(text).len() as i32) + encode_utf8(text)
}

/// What reading a string from the head of `source` yields: the string and
/// the number of bytes it occupies, count included. A count that is negative
/// or above `MAX_STRING_LEN` is too long; a count that runs past the end of
/// `source` means that the packet is cut short.
pub open spec fn spec_decode_string(source: Seq<u8>) -> Result<(Seq<char>, nat), ProtocolError> {
    match spec_decode(source) {
        Err(e) => Err(e),
        Ok((declared, prefix)) => {
            if declared < 0 || declared > MAX_STRING_LEN {
                Err(ProtocolError::StringTooLong)
            } else if source.len() < prefix + declared {
                Err(ProtocolError::TruncatedPacket)
            } else {
                let bytes = source.subrange(prefix as int, prefix + declared);
                if valid_utf8(bytes) {
                    Ok((decode_utf8(bytes), (prefix + declared) as nat))
                } else {
                    Err(ProtocolError::InvalidUtf8)
                }
            }
        },
    }
}

/// Whether a frame can be written: each of its strings must be.
pub open spec fn frame_encodable(frame: FrameView) -> bool {
    match frame {
        FrameView::Handshake { server_address, .. } => string_encodable(server_address),
        FrameView::StatusResponse { json } => string_encodable(json),
        _ => true,
    }
}

/// The body of the packet that carries `frame`: its id and its fields.
pub open spec fn spec_encode_frame(frame: FrameView) -> Seq<u8> {
    match frame {
        FrameView::Handshake { protocol_version, server_address, server_port, next_state } => {
            spec_encode(HANDSHAKE_ID) + spec_encode(protocol_version) + spec_encode_string(
                server_address,
            ) + spec_u16_to_be(server_port) + spec_encode(next_state)
        },
        FrameView::StatusRequest => spec_encode(HANDSHAKE_ID),
        FrameView::StatusResponse { json } => spec_encode(HANDSHAKE_ID) + spec_encode_string(json),
        FrameView::PingRequest { payload } => spec_encode(PING_ID) + spec_i64_to_be(payload),
        FrameView::PingResponse { payload } => spec_encode(PING_ID) + spec_i64_to_be(payload),
    }
}

/// The fields of a handshake, read from the bytes behind the packet id.
/// Bytes behind the last field are ignored.
pub open spec fn spec_decode_handshake(fields: Seq<u8>) -> Result<FrameView, ProtocolError> {
    match spec_decode(fields) {
        Err(e) => Err(e),
        Ok((protocol_version, n1)) => match spec_decode_string(fields.skip(n1 as int)) {
            Err(e) => Err(e),
            Ok((server_address, n2)) => {
                let after = fields.skip((n1 + n2) as int);
                if after.len() < 2 {
                    Err(ProtocolError::TruncatedPacket)
                } else {
                    match spec_decode(after.skip(2)) {
                        Err(e) => Err(e),
                        Ok((next_state, _)) => Ok(
                            FrameView::Handshake {
                                protocol_version,
                                server_address,
                                server_port: spec_u16_from_be(after.take(2)),
                                next_state,
                            },
                        ),
                    }
                }
            },
        },
    }
}

/// What reading a packet body in a given phase yields.
///
/// In the handshake phase only id 0 is known, and holds a handshake. In the
/// status phase id 0 with nothing behind it is a status request and id 1 is a
/// ping request, whose payload is the eight bytes behind the id. Everything
/// else is an unknown frame.
pub open spec fn spec_decode_frame(body: Seq<u8>, phase: SessionPhase) -> Result<
    FrameView,
    ProtocolError,
> {
    match spec_decode(body) {
        Err(e) => Err(e),
        Ok((id, n)) => {
            let fields = body.skip(n as int);
            match phase {
                SessionPhase::Handshake => {
                    if id == HANDSHAKE_ID {
                        spec_decode_handshake(fields)
                    } else {
                        Err(ProtocolError::UnknownFrame)
                    }
                },
                SessionPhase::Status => {
                    if id == HANDSHAKE_ID && fields.len() == 0 {
                        Ok(FrameView::StatusRequest)
                    } else if id == PING_ID {
                        if fields.len() < 8 {
                            Err(ProtocolError::TruncatedPacket)
                        } else {
                            Ok(FrameView::PingRequest { payload: spec_i64_from_be(fields.take(8)) })
                        }
                    } else {
                        Err(ProtocolError::UnknownFrame)
                    }
                },
            }
        },
    }
}

/// The phase in which a frame may arrive at the server: requests have one,
/// responses have none.
pub open spec fn arrival_phase(frame: FrameView) -> Option<SessionPhase> {
    match frame {
        FrameView::Handshake { .. } => Some(SessionPhase::Handshake),
        FrameView::StatusRequest => Some(SessionPhase::Status),
        FrameView::PingRequest { .. } => Some(SessionPhase::Status),
        FrameView::StatusResponse { .. } => None,
        FrameView::PingResponse { .. } => None,
    }
}

/// Whether the strings of a frame are short enough to be read back.
pub open spec fn strings_within_limit(frame: FrameView) -> bool {
    match frame {
        FrameView::Handshake { server_address, .. } => encode_utf8(server_address).len()
            <= MAX_STRING_LEN,
        _ => true,
    }
}

/// Reading inverts writing for strings: a string of at most `MAX_STRING_LEN`
/// bytes, written and followed by anything, is read back as itself, and the
/// bytes read are exactly the bytes written.
pub proof fn lemma_decode_string_encode_string(text: Seq<char>, rest: Seq<u8>)
    requires
        encode_utf8(text).len() <= MAX_STRING_LEN,
    ensures
        spec_decode_string(spec_encode_string(text) + rest) == Ok::<
            (Seq<char>, nat),
            ProtocolError,
        >((text, spec_encode_string(text).len())),
{
    let bytes = encode_utf8(text);
    let count = bytes.len() as i32;
    let prefix = spec_encode(count);
    let source = spec_encode_string(text) + rest;
    lemma_decode_encode_prefix(count, bytes + rest);
    assert(source =~= prefix + (bytes + rest));
    assert(source.subrange(prefix.len() as int, prefix.len() + count) =~= bytes);
    vstd::utf8::encode_utf8_valid_utf8(text);
    vstd::utf8::encode_utf8_decode_utf8(text);
}

/// Reading inverts writing for every frame that a client may send: the body
/// written for a handshake, a status request or a ping request is read back,
/// in the phase in which such a frame arrives, as the same frame. A handshake
/// is read back only if its address has at most `MAX_STRING_LEN` bytes.
pub proof fn lemma_decode_frame_encode_frame(frame: FrameView, phase: SessionPhase)
    requires
        arrival_phase(frame) == Some(phase),
        strings_within_limit(frame),
    ensures
        spec_decode_frame(spec_encode_frame(frame), phase) == Ok::<FrameView, ProtocolError>(
            frame,
        ),
{
    let body = spec_encode_frame(frame);
    match frame {
        FrameView::Handshake { protocol_version, server_address, server_port, next_state } => {
            let id = spec_encode(HANDSHAKE_ID);
            let version = spec_encode(protocol_version);
            let address = spec_encode_string(server_address);
            let port = spec_u16_to_be(server_port);
            let state = spec_encode(next_state);
            lemma_decode_encode_prefix(HANDSHAKE_ID, version + address + port + state);
            assert(body =~= id + (version + address + port + state));
            let fields = body.skip(id.len() as int);
            assert(fields =~= version + (address + port + state));
            lemma_decode_encode_prefix(protocol_version, address + port + state);
            assert(fields.skip(version.len() as int) =~= address + (port + state));
            lemma_decode_string_encode_string(server_address, port + state);
            let after = fields.skip((version.len() + address.len()) as int);
            assert(after =~= port + state);
            lemma_u16_roundtrip(server_port);
            assert(after.take(2) =~= port);
            assert(after.skip(2) =~= state + Seq::<u8>::empty());
            lemma_decode_encode_prefix(next_state, Seq::empty());
        },
        FrameView::StatusRequest => {
            let id = spec_encode(HANDSHAKE_ID);
            lemma_decode_encode_prefix(HANDSHAKE_ID, Seq::empty());
            assert(body =~= id + Seq::<u8>::empty());
            assert(body.skip(id.len() as int) =~= Seq::<u8>::empty());
        },
        FrameView::PingRequest { payload } => {
            let id = spec_encode(PING_ID);
            let bytes = spec_i64_to_be(payload);
            lemma_decode_encode_prefix(PING_ID, bytes);
            lemma_i64_roundtrip(payload);
            let fields = body.skip(id.len() as int);
            assert(fields =~= bytes);
            assert(fields.take(8) =~= bytes);
        },
        _ => {},
    }
}

/// `String::from_utf8` of the standard library: the bytes make a string
/// exactly when they are valid UTF-8, and the string then consists of these
/// very bytes.
#[verifier::external_body]
fn string_from_utf8(bytes: &[u8]) -> (res: Option<String>)
    ensures
        res is Some <==> valid_utf8(bytes@),
        res matches Some(text) ==> encode_utf8(text@) == bytes@,
{
    String::from_utf8(bytes.to_vec()).ok()
}

/// Appends `text` to `out` as a string field, unless it is too long for its
/// byte count to be written.
pub fn put_string(text: &str, out: &mut Vec<u8>) -> (res: Result<(), ProtocolError>)
    ensures
        match res {
            Ok(_) => string_encodable(text@) && final(out)@ == old(out)@ + spec_encode_string(
                text@,
            ),
            Err(e) => !string_encodable(text@) && e == ProtocolError::StringTooLong && final(out)@
                == old(out)@,
        },
{
    let bytes = text.as_bytes();
    if bytes.len() > MAX_ENCODED_STRING_LEN {
        return Err(ProtocolError::StringTooLong);
    }
    let ghost start = out@;
    encode_into(bytes.len() as i32, out);
    out.extend_from_slice(bytes);
    proof {
        assert(out@ =~= start + spec_encode_string(text@));
    }
    Ok(())
}

/// Reads a string field from the head of `source`, and says how many bytes
/// it occupies.
pub fn get_string(source: &[u8]) -> (res: Result<(String, usize), ProtocolError>)
    ensures
        match res {
            Ok((text, len)) => spec_decode_string(source@) == Ok::<
                (Seq<char>, nat),
                ProtocolError,
            >((text@, len as nat)) && len <= source@.len(),
            Err(e) => spec_decode_string(source@) == Err::<(Seq<char>, nat), ProtocolError>(e),
        },
{
    let (declared, prefix) = match decode(source) {
        Ok(found) => found,
        Err(e) => {
            return Err(e);
        },
    };
    if declared < 0 || declared > MAX_STRING_LEN as i32 {
        return Err(ProtocolError::StringTooLong);
    }
    let count: usize = declared as usize;
    if source.len() - prefix < count {
        return Err(ProtocolError::TruncatedPacket);
    }
    let bytes = slice_subrange(source, prefix, prefix + count);
    match string_from_utf8(bytes) {
        Some(text) => {
            proof {
                vstd::utf8::encode_utf8_decode_utf8(text@);
            }
            Ok((text, prefix + count))
        },
        None => Err(ProtocolError::InvalidUtf8),
    }
}

/// Writes the body of the packet that carries `frame`. Fails, with
/// `StringTooLong`, exactly when a string of the frame has more bytes than a
/// VarInt can announce.
pub fn encode_frame(frame: &Frame) -> (res: Result<Vec<u8>, ProtocolError>)
    ensures
        match res {
            Ok(body) => frame_encodable(frame@) && body@ == spec_encode_frame(frame@),
            Err(e) => !frame_encodable(frame@) && e == ProtocolError::StringTooLong,
        },
{
    let mut body: Vec<u8> = Vec::new();
    match frame {
        Frame::Handshake { protocol_version, server_address, server_port, next_state } => {
            encode_into(HANDSHAKE_ID, &mut body);
            encode_into(*protocol_version, &mut body);
            match put_string(server_address.as_str(), &mut body) {
                Ok(_) => {},
                Err(e) => {
                    return Err(e);
                },
            }
            put_u16(*server_port, &mut body);
            encode_into(*next_state, &mut body);
        },
        Frame::StatusRequest => {
            encode_into(HANDSHAKE_ID, &mut body);
        },
        Frame::StatusResponse { json } => {
            encode_into(HANDSHAKE_ID, &mut body);
            match put_string(json.as_str(), &mut body) {
                Ok(_) => {},
                Err(e) => {
                    return Err(e);
                },
            }
        },
        Frame::PingRequest { payload } => {
            encode_into(PING_ID, &mut body);
            put_i64(*payload, &mut body);
        },
        Frame::PingResponse { payload } => {
            encode_into(PING_ID, &mut body);
            put_i64(*payload, &mut body);
        },
    }
    proof {
        assert(body@ =~= spec_encode_frame(frame@));
    }
    Ok(body)
}

/// Reads the fields of a handshake from the bytes behind the packet id.
fn decode_handshake(fields: &[u8]) -> (res: Result<Frame, ProtocolError>)
    ensures
        match res {
            Ok(frame) => spec_decode_handshake(fields@) == Ok::<FrameView, ProtocolError>(frame@),
            Err(e) => spec_decode_handshake(fields@) == Err::<FrameView, ProtocolError>(e),
        },
{
    let (protocol_version, n1) = match decode(fields) {
        Ok(found) => found,
        Err(e) => {
            return Err(e);
        },
    };
    let behind_version = slice_subrange(fields, n1, fields.len());
    let (server_address, n2) = match get_string(behind_version) {
        Ok(found) => found,
        Err(e) => {
            return Err(e);
        },
    };
    let behind_address = slice_subrange(behind_version, n2, behind_version.len());
    proof {
        assert(behind_address@ =~= fields@.skip((n1 + n2) as int));
    }
    let server_port = match get_u16(behind_address) {
        Some(port) => port,
        None => {
            return Err(ProtocolError::TruncatedPacket);
        },
    };
    let behind_port = slice_subrange(behind_address, 2, behind_address.len());
    let (next_state, _) = match decode(behind_port) {
        Ok(found) => found,
        Err(e) => {
            return Err(e);
        },
    };
    Ok(Frame::Handshake { protocol_version, server_address, server_port, next_state })
}

/// Reads the frame that a packet body holds, given the phase of the session
/// in which the packet arrived.
pub fn decode_frame(body: &[u8], phase: SessionPhase) -> (res: Result<Frame, ProtocolError>)
    ensures
        match res {
            Ok(frame) => spec_decode_frame(body@, phase) == Ok::<FrameView, ProtocolError>(frame@),
            Err(e) => spec_decode_frame(body@, phase) == Err::<FrameView, ProtocolError>(e),
        },
{
    let (id, n) = match decode(body) {
        Ok(found) => found,
        Err(e) => {
            return Err(e);
        },
    };
    let fields = slice_subrange(body, n, body.len());
    match phase {
        SessionPhase::Handshake => {
            if id == HANDSHAKE_ID {
                decode_handshake(fields)
            } else {
                Err(ProtocolError::UnknownFrame)
            }
        },
        SessionPhase::Status => {
            if id == HANDSHAKE_ID && fields.len() == 0 {
                Ok(Frame::StatusRequest)
            } else if id == PING_ID {
                match get_i64(fields) {
                    Some(payload) => Ok(Frame::PingRequest { payload }),
                    None => Err(ProtocolError::TruncatedPacket),
                }
            } else {
                Err(ProtocolError::UnknownFrame)
            }
        },
    }
}

} // verus!
