//! Packets on a byte stream.
//!
//! A packet is the length of its body as a VarInt, followed by the body. The
//! transport keeps the bytes that have arrived and not yet been read as
//! packets, and hands out one body at a time. It never waits for a body that
//! is longer than the limit it was made with.

use vstd::prelude::*;
use vstd::slice::{slice_subrange, slice_to_vec};
use crate::error::ProtocolError;
use crate::frame::{encode_frame, frame_encodable, spec_encode_frame, Frame, FrameView};
use crate::varint::{
    decode, encode_into, lemma_decode_encode_prefix, lemma_decode_more_bytes, lemma_decoded_len,
    spec_decode, spec_encode,
};

verus! {

/// A limit for packet bodies that leaves room for every request of the
/// protocol.
pub const DEFAULT_MAX_PACKET_LEN: usize = 512;

/// The most bytes a body may have when it is written: the largest length a
/// VarInt can announce.
pub const MAX_WRITTEN_PACKET_LEN: usize = 0x7fff_ffff;

/// What stands at the head of the bytes received so far.
pub enum PacketScan {
    /// The bytes end before the packet does.
    Incomplete,
    /// A whole packet: its length prefix takes `prefix` bytes and its body
    /// the `len` bytes after them.
    Complete { prefix: nat, len: nat },
    /// No packet can be read from these bytes, whatever follows them.
    Invalid { error: ProtocolError },
}

/// Looks for a packet at the head of `buffered`, with bodies limited to
/// `max_len` bytes. A length that is negative or above the limit is too
/// large, and is found so as soon as the length prefix is complete.
pub open spec fn scan_packet(buffered: Seq<u8>, max_len: nat) -> PacketScan {
    match spec_decode(buffered) {
        Err(ProtocolError::UnexpectedEof) => PacketScan::Incomplete,
        Err(error) => PacketScan::Invalid { error },
        Ok((declared, prefix)) => {
            if declared < 0 || declared > max_len {
                PacketScan::Invalid { error: ProtocolError::PacketTooLarge }
            } else if buffered.len() < prefix + declared {
                PacketScan::Incomplete
            } else {
                PacketScan::Complete { prefix, len: declared as nat }
            }
        },
    }
}

/// Whether a body can be sent: its length must fit a VarInt.
pub open spec fn packet_writable(body: Seq<u8>) -> bool {
    body.len() <= MAX_WRITTEN_PACKET_LEN
}

/// The packet that carries `body`.
pub open spec fn spec_packet(body: Seq<u8>) -> Seq<u8> {
    spec_encode(body.len() as i32) + body
}

/// A packet, followed by anything, is found whole at the head of the bytes,
/// provided its body is within the limit.
pub proof fn lemma_scan_written_packet(body: Seq<u8>, rest: Seq<u8>, max_len: nat)
    requires
        packet_writable(body),
        body.len() <= max_len,
    ensures
        scan_packet(spec_packet(body) + rest, max_len) == (PacketScan::Complete {
            prefix: spec_encode(body.len() as i32).len(),
            len: body.len(),
        }),
        (spec_packet(body) + rest).subrange(
            spec_encode(body.len() as i32).len() as int,
            spec_packet(body).len() as int,
        ) == body,
        (spec_packet(body) + rest).skip(spec_packet(body).len() as int) == rest,
{
    let prefix = spec_encode(body.len() as i32);
    let buffered = spec_packet(body) + rest;
    lemma_decode_encode_prefix(body.len() as i32, body + rest);
    assert(buffered =~= prefix + (body + rest));
    assert(buffered.subrange(prefix.len() as int, spec_packet(body).len() as int) =~= body);
    assert(buffered.skip(spec_packet(body).len() as int) =~= rest);
}

/// What sending a frame puts on the wire: the packet that carries its body.
/// A frame with a string too long to be written, or with a body too long to
/// be announced, cannot be sent.
pub open spec fn spec_write_frame(frame: FrameView) -> Result<Seq<u8>, ProtocolError> {
    if !frame_encodable(frame) {
        Err(ProtocolError::StringTooLong)
    } else if !packet_writable(spec_encode_frame(frame)) {
        Err(ProtocolError::PacketTooLarge)
    } else {
        Ok(spec_packet(spec_encode_frame(frame)))
    }
}

/// A length that is negative or above the limit is refused as soon as it is
/// there, whatever follows it.
pub proof fn lemma_oversized_packet_refused(declared: i32, rest: Seq<u8>, max_len: nat)
    requires
        declared < 0 || declared > max_len,
    ensures
        scan_packet(spec_encode(declared) + rest, max_len) == (PacketScan::Invalid {
            error: ProtocolError::PacketTooLarge,
        }),
{
    lemma_decode_encode_prefix(declared, rest);
}

/// The transport never changes its mind: once the bytes held start with a
/// whole packet, or are found invalid, bytes that arrive behind them change
/// nothing about what stands at their head.
pub proof fn lemma_scan_more_bytes(buffered: Seq<u8>, more: Seq<u8>, max_len: nat)
    requires
        !(scan_packet(buffered, max_len) is Incomplete),
    ensures
        scan_packet(buffered + more, max_len) == scan_packet(buffered, max_len),
{
    lemma_decode_more_bytes(buffered, more);
}

/// Bytes that hold no whole packet yet are no more than the limit and the
/// longest length prefix together.
pub proof fn lemma_incomplete_is_short(buffered: Seq<u8>, max_len: nat)
    requires
        scan_packet(buffered, max_len) is Incomplete,
    ensures
        buffered.len() <= max_len + 5,
{
    lemma_decoded_len(buffered);
}

/// The bytes of one connection that have arrived and not yet been read.
pub struct Transport {
    buffer: Vec<u8>,
    max_packet_len: usize,
}

impl Transport {
    /// The bytes that have arrived and not yet been read as packets.
    pub closed spec fn buffered(&self) -> Seq<u8> {
        self.buffer@
    }

    /// The most bytes a body may have.
    pub closed spec fn max_len(&self) -> nat {
        self.max_packet_len as nat
    }

    /// A transport with nothing received, which accepts bodies of up to
    /// `max_packet_len` bytes.
    pub fn new(max_packet_len: usize) -> (transport: Transport)
        ensures
            transport.buffered() == Seq::<u8>::empty(),
            transport.max_len() == max_packet_len,
    {
        Transport { buffer: Vec::new(), max_packet_len }
    }

    /// The limit on bodies that the transport was made with.
    pub fn max_packet_len(&self) -> (max: usize)
        ensures
            max == self.max_len(),
    {
        self.max_packet_len
    }

    /// The number of bytes that have arrived and not yet been read.
    pub fn buffered_len(&self) -> (len: usize)
        ensures
            len == self.buffered().len(),
    {
        self.buffer.len()
    }

    /// Takes in bytes that arrived from the peer, behind those already held.
    pub fn receive(&mut self, bytes: &[u8])
        ensures
            final(self).buffered() == old(self).buffered() + bytes@,
            final(self).max_len() == old(self).max_len(),
    {
        let ghost held = self.buffer@;
        self.buffer.extend_from_slice(bytes);
        proof {
            assert(self.buffer@ =~= held + bytes@);
        }
    }

    /// Says whether the stream may end here: it may where no byte is held,
    /// and is cut short where the peer closes with part of a packet sent.
    pub fn end_of_stream(&self) -> (res: Result<(), ProtocolError>)
        ensures
            res == (if self.buffered().len() == 0 {
                Ok::<(), ProtocolError>(())
            } else {
                Err::<(), ProtocolError>(ProtocolError::UnexpectedEof)
            }),
    {
        if self.buffer.len() == 0 {
            Ok(())
        } else {
            Err(ProtocolError::UnexpectedEof)
        }
    }

    /// Hands out the body of the packet at the head of the bytes received,
    /// and drops the packet from them. Gives `None`, and keeps the bytes, as
    /// long as the packet is incomplete; fails, and keeps the bytes, where no
    /// packet can be read.
    pub fn read_packet(&mut self) -> (res: Result<Option<Vec<u8>>, ProtocolError>)
        ensures
            final(self).max_len() == old(self).max_len(),
            match scan_packet(old(self).buffered(), old(self).max_len()) {
                PacketScan::Incomplete => {
                    &&& res matches Ok(None)
                    &&& final(self).buffered() == old(self).buffered()
                },
                PacketScan::Complete { prefix, len } => {
                    &&& res matches Ok(Some(body))
                    &&& body@ == old(self).buffered().subrange(prefix as int, (prefix + len) as int)
                    &&& final(self).buffered() == old(self).buffered().skip((prefix + len) as int)
                },
                PacketScan::Invalid { error } => {
                    &&& res matches Err(e)
                    &&& e == error
                    &&& final(self).buffered() == old(self).buffered()
                },
            },
    {
        let (declared, prefix) = match decode(self.buffer.as_slice()) {
            Ok(found) => found,
            Err(ProtocolError::UnexpectedEof) => {
                return Ok(None);
            },
            Err(e) => {
                return Err(e);
            },
        };
        if declared < 0 || declared as usize > self.max_packet_len {
            return Err(ProtocolError::PacketTooLarge);
        }
        let len: usize = declared as usize;
        if self.buffer.len() - prefix < len {
            return Ok(None);
        }
        let end: usize = prefix + len;
        let body = slice_to_vec(slice_subrange(self.buffer.as_slice(), prefix, end));
        let rest = self.buffer.split_off(end);
        self.buffer = rest;
        Ok(Some(body))
    }
}

/// Makes the packet that carries `body`. Fails, with `PacketTooLarge`,
/// exactly when the body has more bytes than a VarInt can announce.
pub fn write_packet(body: &[u8]) -> (res: Result<Vec<u8>, ProtocolError>)
    ensures
        match res {
            Ok(packet) => packet_writable(body@) && packet@ == spec_packet(body@),
            Err(e) => !packet_writable(body@) && e == ProtocolError::PacketTooLarge,
        },
{
    if body.len() > MAX_WRITTEN_PACKET_LEN {
        return Err(ProtocolError::PacketTooLarge);
    }
    let mut packet: Vec<u8> = Vec::new();
    encode_into(body.len() as i32, &mut packet);
    packet.extend_from_slice(body);
    proof {
        assert(packet@ =~= spec_packet(body@));
    }
    Ok(packet)
}

/// Makes the packet that carries `frame`.
pub fn write_frame(frame: &Frame) -> (res: Result<Vec<u8>, ProtocolError>)
    ensures
        match res {
            Ok(packet) => spec_write_frame(frame@) == Ok::<Seq<u8>, ProtocolError>(packet@),
            Err(e) => spec_write_frame(frame@) == Err::<Seq<u8>, ProtocolError>(e),
        },
{
    match encode_frame(frame) {
        Ok(body) => write_packet(body.as_slice()),
        Err(e) => Err(e),
    }
}

} // verus!
