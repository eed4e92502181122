use elytra_server::error::{ProtocolError, WorkerError};
use elytra_server::transport::Transport;

#[test]
fn worker_error_messages() {
    assert_eq!(WorkerError::ConnectionDropped.message(), "connection dropped");
    assert_eq!(
        WorkerError::Protocol { source: ProtocolError::PacketTooLarge }.message(),
        "a packet is too large"
    );
    assert_eq!(
        WorkerError::Protocol { source: ProtocolError::UnknownFrame }.message(),
        ProtocolError::UnknownFrame.message()
    );
}

#[test]
fn protocol_error_messages_differ() {
    let all = [
        ProtocolError::MalformedVarInt,
        ProtocolError::UnexpectedEof,
        ProtocolError::InvalidUtf8,
        ProtocolError::StringTooLong,
        ProtocolError::TruncatedPacket,
        ProtocolError::PacketTooLarge,
        ProtocolError::UnknownFrame,
    ];
    for (i, first) in all.iter().enumerate() {
        assert!(!first.message().is_empty());
        for second in &all[i + 1..] {
            assert_ne!(first, second);
            assert_ne!(first.message(), second.message());
        }
    }
    assert_eq!(ProtocolError::MalformedVarInt.message(), "a VarInt ran on past its fifth byte");
    assert_eq!(ProtocolError::InvalidUtf8.message(), "a string is not valid UTF-8");
}

#[test]
fn end_of_stream_is_clean_between_packets_only() {
    let mut transport = Transport::new(64);
    assert_eq!(transport.end_of_stream(), Ok(()));
    transport.receive(&[0x02, 0x00]);
    assert_eq!(transport.end_of_stream(), Err(ProtocolError::UnexpectedEof));
    transport.receive(&[0x00]);
    assert_eq!(transport.read_packet(), Ok(Some(vec![0x00, 0x00])));
    assert_eq!(transport.end_of_stream(), Ok(()));
}
