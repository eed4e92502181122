use elytra_server::error::{ProtocolError, WorkerError};
use elytra_server::frame::Frame;
use elytra_server::stream::run_stream;
use elytra_server::transport::{write_frame, DEFAULT_MAX_PACKET_LEN};
use elytra_server::worker::run_worker;

const DESCRIPTION: &str = "{\"description\":{\"text\":\"hello\"}}";

fn session_bytes() -> Vec<u8> {
    let frames = vec![
        Frame::Handshake {
            protocol_version: 763,
            server_address: "localhost".to_string(),
            server_port: 25565,
            next_state: 1,
        },
        Frame::StatusRequest,
        Frame::PingRequest { payload: 123456789 },
    ];
    let mut bytes: Vec<u8> = Vec::new();
    for frame in &frames {
        bytes.extend_from_slice(&write_frame(frame).unwrap());
    }
    bytes
}

fn session_replies() -> Vec<u8> {
    let mut bytes = write_frame(&Frame::StatusResponse { json: DESCRIPTION.to_string() }).unwrap();
    bytes.extend_from_slice(&write_frame(&Frame::PingResponse { payload: 123456789 }).unwrap());
    bytes
}

fn in_pieces(bytes: &[u8], size: usize) -> Vec<Vec<u8>> {
    bytes.chunks(size).map(|piece| piece.to_vec()).collect()
}

#[test]
fn run_stream_on_no_chunks_is_a_dropped_connection() {
    assert_eq!(
        run_stream(&[], DESCRIPTION, DEFAULT_MAX_PACKET_LEN),
        (vec![], Err(WorkerError::ConnectionDropped))
    );
    assert_eq!(
        run_stream(&[vec![], vec![]], DESCRIPTION, DEFAULT_MAX_PACKET_LEN),
        (vec![], Err(WorkerError::ConnectionDropped))
    );
}

#[test]
fn run_stream_answers_whatever_the_pieces() {
    let input = session_bytes();
    let expected = (session_replies(), Err(WorkerError::ConnectionDropped));
    assert_eq!(run_worker(&input, DESCRIPTION, DEFAULT_MAX_PACKET_LEN), expected);
    for size in [1usize, 2, 3, 5, 7, 16, 17, 18, 19, 27, 28, 29, 1000] {
        let chunks = in_pieces(&input, size);
        assert_eq!(run_stream(&chunks, DESCRIPTION, DEFAULT_MAX_PACKET_LEN), expected);
    }
    let mut with_gaps = in_pieces(&input, 4);
    with_gaps.insert(0, vec![]);
    with_gaps.insert(3, vec![]);
    with_gaps.push(vec![]);
    assert_eq!(run_stream(&with_gaps, DESCRIPTION, DEFAULT_MAX_PACKET_LEN), expected);
}

#[test]
fn run_stream_fails_as_run_worker_does() {
    let mut inputs: Vec<Vec<u8>> = Vec::new();
    // ends inside a packet
    let whole = session_bytes();
    inputs.push(whole[..whole.len() - 3].to_vec());
    // a login
    inputs.push(
        write_frame(&Frame::Handshake {
            protocol_version: 763,
            server_address: "localhost".to_string(),
            server_port: 25565,
            next_state: 2,
        })
        .unwrap(),
    );
    // an oversized packet behind an answered request
    let mut oversized = whole.clone();
    oversized.extend_from_slice(&[0xff, 0xff, 0x03, 0x00]);
    inputs.push(oversized);
    // a malformed length
    inputs.push(vec![0x80, 0x80, 0x80, 0x80, 0x80, 0x80, 0x00]);
    // an unknown frame
    let mut unknown = whole.clone();
    unknown.extend_from_slice(&[0x01, 0x09]);
    inputs.push(unknown);
    for input in &inputs {
        let expected = run_worker(input, DESCRIPTION, DEFAULT_MAX_PACKET_LEN);
        for size in [1usize, 2, 3, 10, 64] {
            let chunks = in_pieces(input, size);
            assert_eq!(run_stream(&chunks, DESCRIPTION, DEFAULT_MAX_PACKET_LEN), expected);
        }
    }
    assert_eq!(
        run_stream(&in_pieces(&inputs[2], 1), DESCRIPTION, DEFAULT_MAX_PACKET_LEN),
        (session_replies(), Err(WorkerError::Protocol { source: ProtocolError::PacketTooLarge }))
    );
}

#[test]
fn run_stream_stops_at_the_first_ending() {
    let login = write_frame(&Frame::Handshake {
        protocol_version: 763,
        server_address: "localhost".to_string(),
        server_port: 25565,
        next_state: 2,
    })
    .unwrap();
    let chunks = vec![login, session_bytes(), vec![0x80; 9]];
    assert_eq!(run_stream(&chunks, DESCRIPTION, DEFAULT_MAX_PACKET_LEN), (vec![], Ok(())));
}
