use elytra_server::error::{ProtocolError, WorkerError};
use elytra_server::frame::Frame;
use elytra_server::phase::SessionPhase;
use elytra_server::transport::{write_frame, DEFAULT_MAX_PACKET_LEN};
use elytra_server::worker::{run_worker, Action, Worker};

const INFO: &str = "{\"description\":{\"text\":\"Try Elytra Ping!\"},\"players\":{\"max\":0,\"online\":0,\"sample\":[]},\"version\":{\"name\":\"elytra-server\",\"protocol\":767}}";

fn handshake_packet(next_state: i32) -> Vec<u8> {
    write_frame(&Frame::Handshake {
        protocol_version: 763,
        server_address: "localhost".to_string(),
        server_port: 25565,
        next_state,
    })
    .unwrap()
}

fn status_request_packet() -> Vec<u8> {
    write_frame(&Frame::StatusRequest).unwrap()
}

fn ping_request_packet(payload: i64) -> Vec<u8> {
    write_frame(&Frame::PingRequest { payload }).unwrap()
}

fn status_response_packet(json: &str) -> Vec<u8> {
    write_frame(&Frame::StatusResponse { json: json.to_string() }).unwrap()
}

fn ping_response_packet(payload: i64) -> Vec<u8> {
    write_frame(&Frame::PingResponse { payload }).unwrap()
}

fn protocol(source: ProtocolError) -> WorkerError {
    WorkerError::Protocol { source }
}

#[test]
fn handshake_packet_bytes() {
    let mut expected: Vec<u8> = vec![0x10, 0x00, 0xfb, 0x05, 0x09];
    expected.extend_from_slice(b"localhost");
    expected.extend_from_slice(&[0x63, 0xdd, 0x01]);
    assert_eq!(handshake_packet(1), expected);
}

#[test]
fn status_request_is_answered_once_and_the_connection_stays_open() {
    let mut worker = Worker::new(DEFAULT_MAX_PACKET_LEN);
    assert_eq!(worker.phase(), SessionPhase::Handshake);
    worker.receive(&handshake_packet(1));
    assert_eq!(worker.advance(INFO), Ok(Action::Continue));
    assert_eq!(worker.phase(), SessionPhase::Status);
    assert_eq!(worker.advance(INFO), Ok(Action::Read));
    worker.receive(&status_request_packet());
    let reply = worker.advance(INFO);
    let mut expected: Vec<u8> = vec![0x8b, 0x01, 0x00, 0x88, 0x01];
    expected.extend_from_slice(INFO.as_bytes());
    assert_eq!(INFO.len(), 136);
    assert_eq!(reply, Ok(Action::Reply { packet: expected }));
    assert_eq!(reply, Ok(Action::Reply { packet: status_response_packet(INFO) }));
    // exactly one reply, then the worker waits for more input
    assert_eq!(worker.advance(INFO), Ok(Action::Read));
    assert_eq!(worker.phase(), SessionPhase::Status);
    assert_eq!(worker.buffered_len(), 0);
}

#[test]
fn ping_is_answered_with_the_same_payload() {
    let mut worker = Worker::new(DEFAULT_MAX_PACKET_LEN);
    worker.receive(&handshake_packet(1));
    worker.receive(&status_request_packet());
    assert_eq!(worker.advance(INFO), Ok(Action::Continue));
    assert_eq!(worker.advance(INFO), Ok(Action::Reply { packet: status_response_packet(INFO) }));
    worker.receive(&ping_request_packet(123456789));
    assert_eq!(
        worker.advance(INFO),
        Ok(Action::Reply { packet: vec![0x09, 0x01, 0, 0, 0, 0, 0x07, 0x5b, 0xcd, 0x15] })
    );
    assert_eq!(worker.advance(INFO), Ok(Action::Read));
    assert_eq!(worker.phase(), SessionPhase::Status);
}

#[test]
fn login_handshake_closes_with_no_bytes_written() {
    let mut worker = Worker::new(DEFAULT_MAX_PACKET_LEN);
    worker.receive(&handshake_packet(2));
    assert_eq!(worker.advance(INFO), Ok(Action::Close));
    assert_eq!(run_worker(&handshake_packet(2), INFO, DEFAULT_MAX_PACKET_LEN), (vec![], Ok(())));
    let mut input = handshake_packet(2);
    input.extend_from_slice(&status_request_packet());
    assert_eq!(run_worker(&input, INFO, DEFAULT_MAX_PACKET_LEN), (vec![], Ok(())));
    assert_eq!(run_worker(&handshake_packet(3), INFO, DEFAULT_MAX_PACKET_LEN), (vec![], Ok(())));
}

#[test]
fn oversized_packet_is_refused_before_its_body_arrives() {
    let mut worker = Worker::new(DEFAULT_MAX_PACKET_LEN);
    // declares 513 bytes, one more than the limit, and holds none of them
    worker.receive(&[0x81, 0x04]);
    assert_eq!(worker.advance(INFO), Err(protocol(ProtocolError::PacketTooLarge)));
    assert_eq!(worker.buffered_len(), 2);
    let mut worker = Worker::new(16);
    worker.receive(&handshake_packet(1));
    assert_eq!(worker.advance(INFO), Ok(Action::Continue));
    let mut worker = Worker::new(15);
    worker.receive(&handshake_packet(1)[..1]);
    assert_eq!(worker.advance(INFO), Err(protocol(ProtocolError::PacketTooLarge)));
    assert_eq!(
        run_worker(&[0xff, 0xff, 0xff, 0xff, 0x07], INFO, DEFAULT_MAX_PACKET_LEN),
        (vec![], Err(protocol(ProtocolError::PacketTooLarge)))
    );
}

#[test]
fn oversized_packet_in_the_status_phase() {
    let mut input = handshake_packet(1);
    input.extend_from_slice(&status_request_packet());
    input.extend_from_slice(&[0x81, 0x04, 0x01]);
    assert_eq!(
        run_worker(&input, INFO, DEFAULT_MAX_PACKET_LEN),
        (status_response_packet(INFO), Err(protocol(ProtocolError::PacketTooLarge)))
    );
}

#[test]
fn same_status_request_twice_gives_the_same_response_twice() {
    let mut worker = Worker::new(DEFAULT_MAX_PACKET_LEN);
    worker.receive(&handshake_packet(1));
    assert_eq!(worker.advance(INFO), Ok(Action::Continue));
    worker.receive(&status_request_packet());
    worker.receive(&status_request_packet());
    let first = worker.advance(INFO);
    let second = worker.advance(INFO);
    assert_eq!(first, Ok(Action::Reply { packet: status_response_packet(INFO) }));
    assert_eq!(second, first);
    assert_eq!(worker.advance(INFO), Ok(Action::Read));

    let mut input = handshake_packet(1);
    input.extend_from_slice(&status_request_packet());
    input.extend_from_slice(&status_request_packet());
    let mut expected = status_response_packet(INFO);
    expected.extend_from_slice(&status_response_packet(INFO));
    assert_eq!(
        run_worker(&input, INFO, DEFAULT_MAX_PACKET_LEN),
        (expected, Err(WorkerError::ConnectionDropped))
    );
}

#[test]
fn run_worker_plays_a_whole_session() {
    let mut input = handshake_packet(1);
    input.extend_from_slice(&status_request_packet());
    input.extend_from_slice(&ping_request_packet(123456789));
    let mut expected = status_response_packet(INFO);
    expected.extend_from_slice(&ping_response_packet(123456789));
    assert_eq!(
        run_worker(&input, INFO, DEFAULT_MAX_PACKET_LEN),
        (expected, Err(WorkerError::ConnectionDropped))
    );
}

#[test]
fn run_worker_on_no_input_is_a_dropped_connection() {
    assert_eq!(
        run_worker(&[], INFO, DEFAULT_MAX_PACKET_LEN),
        (vec![], Err(WorkerError::ConnectionDropped))
    );
    assert_eq!(
        run_worker(&handshake_packet(1), INFO, DEFAULT_MAX_PACKET_LEN),
        (vec![], Err(WorkerError::ConnectionDropped))
    );
}

#[test]
fn run_worker_on_input_that_ends_inside_a_packet() {
    let handshake = handshake_packet(1);
    assert_eq!(
        run_worker(&handshake[..1], INFO, DEFAULT_MAX_PACKET_LEN),
        (vec![], Err(protocol(ProtocolError::UnexpectedEof)))
    );
    assert_eq!(
        run_worker(&handshake[..handshake.len() - 1], INFO, DEFAULT_MAX_PACKET_LEN),
        (vec![], Err(protocol(ProtocolError::UnexpectedEof)))
    );
    assert_eq!(
        run_worker(&[0x80], INFO, DEFAULT_MAX_PACKET_LEN),
        (vec![], Err(protocol(ProtocolError::UnexpectedEof)))
    );
    let mut input = handshake_packet(1);
    input.extend_from_slice(&status_request_packet());
    input.extend_from_slice(&ping_request_packet(5)[..4]);
    assert_eq!(
        run_worker(&input, INFO, DEFAULT_MAX_PACKET_LEN),
        (status_response_packet(INFO), Err(protocol(ProtocolError::UnexpectedEof)))
    );
}

#[test]
fn peer_closed_tells_a_clean_close_from_a_cut() {
    let mut worker = Worker::new(DEFAULT_MAX_PACKET_LEN);
    assert_eq!(worker.peer_closed(), WorkerError::ConnectionDropped);
    worker.receive(&[0x10, 0x00]);
    assert_eq!(worker.advance(INFO), Ok(Action::Read));
    assert_eq!(worker.peer_closed(), protocol(ProtocolError::UnexpectedEof));
}

#[test]
fn unexpected_frames_end_the_connection() {
    // a status request before any handshake: id 0 holds a handshake there, and this one is empty
    assert_eq!(
        run_worker(&status_request_packet(), INFO, DEFAULT_MAX_PACKET_LEN),
        (vec![], Err(protocol(ProtocolError::UnexpectedEof)))
    );
    // a ping before any handshake
    assert_eq!(
        run_worker(&ping_request_packet(1), INFO, DEFAULT_MAX_PACKET_LEN),
        (vec![], Err(protocol(ProtocolError::UnknownFrame)))
    );
    // a second handshake in the status phase
    let mut input = handshake_packet(1);
    input.extend_from_slice(&handshake_packet(1));
    assert_eq!(
        run_worker(&input, INFO, DEFAULT_MAX_PACKET_LEN),
        (vec![], Err(protocol(ProtocolError::UnknownFrame)))
    );
    // an unknown id in the status phase, after an answered request
    let mut input = handshake_packet(1);
    input.extend_from_slice(&status_request_packet());
    input.extend_from_slice(&[0x01, 0x05]);
    input.extend_from_slice(&status_request_packet());
    assert_eq!(
        run_worker(&input, INFO, DEFAULT_MAX_PACKET_LEN),
        (status_response_packet(INFO), Err(protocol(ProtocolError::UnknownFrame)))
    );
}

#[test]
fn malformed_packets_end_the_connection() {
    assert_eq!(
        run_worker(&[0x80, 0x80, 0x80, 0x80, 0x80, 0x80], INFO, DEFAULT_MAX_PACKET_LEN),
        (vec![], Err(protocol(ProtocolError::MalformedVarInt)))
    );
    // an empty packet holds no id
    assert_eq!(
        run_worker(&[0x00], INFO, DEFAULT_MAX_PACKET_LEN),
        (vec![], Err(protocol(ProtocolError::UnexpectedEof)))
    );
    // a handshake whose address is not UTF-8
    assert_eq!(
        run_worker(&[0x07, 0x00, 0x01, 0x01, 0xff, 0x63, 0xdd, 0x01], INFO, DEFAULT_MAX_PACKET_LEN),
        (vec![], Err(protocol(ProtocolError::InvalidUtf8)))
    );
    // a ping with seven bytes of payload
    let mut input = handshake_packet(1);
    input.extend_from_slice(&[0x08, 0x01, 1, 2, 3, 4, 5, 6, 7]);
    assert_eq!(
        run_worker(&input, INFO, DEFAULT_MAX_PACKET_LEN),
        (vec![], Err(protocol(ProtocolError::TruncatedPacket)))
    );
}

#[test]
fn a_failed_packet_is_taken_from_the_bytes_held() {
    let mut worker = Worker::new(DEFAULT_MAX_PACKET_LEN);
    worker.receive(&ping_request_packet(1));
    worker.receive(&handshake_packet(1));
    assert_eq!(worker.buffered_len(), 10 + 17);
    assert_eq!(worker.advance(INFO), Err(protocol(ProtocolError::UnknownFrame)));
    assert_eq!(worker.buffered_len(), 17);
    assert_eq!(worker.phase(), SessionPhase::Handshake);
}

#[test]
fn bytes_may_arrive_one_at_a_time() {
    let mut input = handshake_packet(1);
    input.extend_from_slice(&status_request_packet());
    input.extend_from_slice(&ping_request_packet(-42));
    input.extend_from_slice(&status_request_packet());
    let (expected, ending) = run_worker(&input, INFO, DEFAULT_MAX_PACKET_LEN);
    assert_eq!(ending, Err(WorkerError::ConnectionDropped));

    let mut worker = Worker::new(DEFAULT_MAX_PACKET_LEN);
    let mut sent: Vec<u8> = Vec::new();
    for byte in input {
        worker.receive(&[byte]);
        loop {
            match worker.advance(INFO) {
                Ok(Action::Read) => break,
                Ok(Action::Continue) => {}
                Ok(Action::Reply { packet }) => sent.extend_from_slice(&packet),
                other => panic!("unexpected step: {:?}", other),
            }
        }
    }
    assert_eq!(worker.peer_closed(), WorkerError::ConnectionDropped);
    assert_eq!(sent, expected);
    let mut twice = status_response_packet(INFO);
    twice.extend_from_slice(&ping_response_packet(-42));
    twice.extend_from_slice(&status_response_packet(INFO));
    assert_eq!(sent, twice);
}

#[test]
fn server_info_is_sent_as_it_is() {
    let mut input = handshake_packet(1);
    input.extend_from_slice(&status_request_packet());
    for info in ["", "not json at all", "{\"description\":\"caf\u{e9} \u{1f600}\"}"] {
        assert_eq!(
            run_worker(&input, info, DEFAULT_MAX_PACKET_LEN),
            (status_response_packet(info), Err(WorkerError::ConnectionDropped))
        );
    }
    let large = "f".repeat(40_000);
    let (sent, ending) = run_worker(&input, &large, DEFAULT_MAX_PACKET_LEN);
    assert_eq!(ending, Err(WorkerError::ConnectionDropped));
    assert_eq!(sent.len(), 3 + 1 + 3 + 40_000);
    assert_eq!(&sent[..7], &[0xc4, 0xb8, 0x02, 0x00, 0xc0, 0xb8, 0x02]);
}
