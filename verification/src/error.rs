//! The ways in which a connection can end early.

use vstd::prelude::*;

verus! {

/// A violation of the wire format, found while reading or writing a packet.
#[derive(Clone, Copy, Debug, PartialEq, Eq, Structural)]
pub enum ProtocolError {
    /// A VarInt ran on past its fifth byte.
    MalformedVarInt,
    /// The bytes ended in the middle of a VarInt or of a packet.
    UnexpectedEof,
    /// A string field does not hold valid UTF-8.
    InvalidUtf8,
    /// A string field declares more bytes than a string may have.
    StringTooLong,
    /// A packet body ended before the field being read was complete.
    TruncatedPacket,
    /// A packet declares more bytes than a packet may have.
    PacketTooLarge,
    /// The packet id names no frame that may arrive in the current phase.
    UnknownFrame,
}

/// Why a worker stopped serving its connection before the session closed.
#[derive(Clone, Copy, Debug, PartialEq, Eq, Structural)]
pub enum WorkerError {
    /// The peer closed the connection between two packets.
    ConnectionDropped,
    /// The peer broke the wire format.
    Protocol { source: ProtocolError },
}

impl ProtocolError {
    /// The text of `message`.
    pub open spec fn spec_message(&self) -> Seq<char> {
        match self {
            ProtocolError::MalformedVarInt => "a VarInt ran on past its fifth byte"@,
            ProtocolError::UnexpectedEof => "the bytes ended inside a VarInt or a packet"@,
            ProtocolError::InvalidUtf8 => "a string is not valid UTF-8"@,
            ProtocolError::StringTooLong => "a string is too long"@,
            ProtocolError::TruncatedPacket => "a packet ended inside a field"@,
            ProtocolError::PacketTooLarge => "a packet is too large"@,
            ProtocolError::UnknownFrame => "a packet holds no frame that may arrive now"@,
        }
    }

    /// A short description of the error, for logs.
    pub fn message(&self) -> (text: &'static str)
        ensures
            text@ == self.spec_message(),
    {
        match self {
            ProtocolError::MalformedVarInt => "a VarInt ran on past its fifth byte",
            ProtocolError::UnexpectedEof => "the bytes ended inside a VarInt or a packet",
            ProtocolError::InvalidUtf8 => "a string is not valid UTF-8",
            ProtocolError::StringTooLong => "a string is too long",
            ProtocolError::TruncatedPacket => "a packet ended inside a field",
            ProtocolError::PacketTooLarge => "a packet is too large",
            ProtocolError::UnknownFrame => "a packet holds no frame that may arrive now",
        }
    }
}

impl WorkerError {
    /// The text of `message`.
    pub open spec fn spec_message(&self) -> Seq<char> {
        match self {
            WorkerError::ConnectionDropped => "connection dropped"@,
            WorkerError::Protocol { source } => source.spec_message(),
        }
    }

    /// A short description of the error, for logs.
    pub fn message(&self) -> (text: &'static str)
        ensures
            text@ == self.spec_message(),
    {
        match self {
            WorkerError::ConnectionDropped => "connection dropped",
            WorkerError::Protocol { source } => source.message(),
        }
    }
}

} // verus!
