//! Whole exchanges between a client and the server.
//!
//! The codec, the transport and the state machine are stated apart. This
//! module puts them together: it says what the server does, byte for byte,
//! with the requests that a client writes.

use vstd::prelude::*;
use vstd::utf8::encode_utf8;
use crate::endian::{lemma_i64_roundtrip, lemma_u16_roundtrip};
use crate::error::{ProtocolError, WorkerError};
use crate::frame::{
    arrival_phase, lemma_decode_frame_encode_frame, spec_encode_frame, strings_within_limit,
    FrameView, HANDSHAKE_ID, NEXT_STATE_STATUS, PING_ID,
};
use crate::phase::SessionPhase;
use crate::session::{spec_step, TransitionView};
use crate::transport::{
    lemma_oversized_packet_refused, lemma_scan_written_packet, spec_packet, spec_write_frame,
};
use crate::varint::{lemma_decode_encode_prefix, spec_encode};
use crate::worker::{spec_advance, spec_drain, spec_run, spec_send, DrainView};

verus! {

/// The body of a request that can be read back is short: no request takes
/// more than 273 bytes.
pub proof fn lemma_request_body_len(frame: FrameView)
    requires
        arrival_phase(frame) is Some,
        strings_within_limit(frame),
    ensures
        1 <= spec_encode_frame(frame).len() <= 273,
{
    match frame {
        FrameView::Handshake { protocol_version, server_address, server_port, next_state } => {
            lemma_decode_encode_prefix(HANDSHAKE_ID, Seq::empty());
            lemma_decode_encode_prefix(protocol_version, Seq::empty());
            lemma_decode_encode_prefix(encode_utf8(server_address).len() as i32, Seq::empty());
            lemma_u16_roundtrip(server_port);
            lemma_decode_encode_prefix(next_state, Seq::empty());
        },
        FrameView::PingRequest { payload } => {
            lemma_decode_encode_prefix(PING_ID, Seq::empty());
            lemma_i64_roundtrip(payload);
        },
        _ => {
            lemma_decode_encode_prefix(HANDSHAKE_ID, Seq::empty());
        },
    }
}

/// A request on the wire is handled as the transition table says.
///
/// Where the bytes held start with the packet of a request that may arrive
/// in the worker's phase, with strings short enough to be read and a body
/// within the limit, one step takes exactly that packet from the bytes and
/// does what the table says of the request.
pub proof fn lemma_advance_on_request(
    phase: SessionPhase,
    frame: FrameView,
    rest: Seq<u8>,
    server_info: Seq<char>,
    max_len: nat,
)
    requires
        arrival_phase(frame) == Some(phase),
        strings_within_limit(frame),
        spec_encode_frame(frame).len() <= max_len,
    ensures
        ({
            let packet = spec_packet(spec_encode_frame(frame));
            let step = spec_advance(phase, packet + rest, server_info, max_len);
            &&& step.buffered == rest
            &&& match spec_step(phase, frame, server_info) {
                TransitionView::Close => step.phase == phase && step.outcome is Close,
                TransitionView::Next { phase: next, reply: None } => step.phase == next
                    && step.outcome is Continue,
                TransitionView::Next { phase: next, reply: Some(answer) } => step.phase == next
                    && step.outcome == spec_send(answer),
            }
        }),
{
    reveal(spec_advance);
    let body = spec_encode_frame(frame);
    lemma_request_body_len(frame);
    lemma_scan_written_packet(body, rest, max_len);
    lemma_decode_frame_encode_frame(frame, phase);
}

/// The same status request, sent twice in the status phase, is answered
/// twice, and the two answers are the same bytes: the packet of a status
/// response that holds the server's description. Each request is taken from
/// the bytes held, and the phase stays.
pub proof fn lemma_status_request_twice(server_info: Seq<char>, rest: Seq<u8>, max_len: nat)
    requires
        max_len >= 1,
    ensures
        ({
            let request = spec_packet(spec_encode_frame(FrameView::StatusRequest));
            let first = spec_advance(
                SessionPhase::Status,
                request + request + rest,
                server_info,
                max_len,
            );
            let second = spec_advance(first.phase, first.buffered, server_info, max_len);
            &&& first.phase == SessionPhase::Status
            &&& first.buffered == request + rest
            &&& second.phase == SessionPhase::Status
            &&& second.buffered == rest
            &&& second.outcome == first.outcome
            &&& first.outcome == spec_send(FrameView::StatusResponse { json: server_info })
        }),
{
    let request = spec_packet(spec_encode_frame(FrameView::StatusRequest));
    lemma_request_body_len(FrameView::StatusRequest);
    assert(request + request + rest =~= request + (request + rest));
    lemma_advance_on_request(
        SessionPhase::Status,
        FrameView::StatusRequest,
        request + rest,
        server_info,
        max_len,
    );
    lemma_advance_on_request(
        SessionPhase::Status,
        FrameView::StatusRequest,
        rest,
        server_info,
        max_len,
    );
}

/// A request on the wire, and all that follows it.
///
/// Where the bytes held start with the packet of a request as in
/// `lemma_advance_on_request`, the worker handles the request as the
/// transition table says and then goes on with the bytes behind the packet:
/// it stops where the table closes the connection or the reply cannot be
/// written, and else sends the reply, if any, before all that the rest of
/// the bytes makes it send.
pub proof fn lemma_drain_on_request(
    phase: SessionPhase,
    frame: FrameView,
    rest: Seq<u8>,
    server_info: Seq<char>,
    max_len: nat,
)
    requires
        arrival_phase(frame) == Some(phase),
        strings_within_limit(frame),
        spec_encode_frame(frame).len() <= max_len,
    ensures
        ({
            let packet = spec_packet(spec_encode_frame(frame));
            let drained = spec_drain(phase, packet + rest, server_info, max_len);
            match spec_step(phase, frame, server_info) {
                TransitionView::Close => drained == (DrainView {
                    phase,
                    buffered: rest,
                    sent: Seq::empty(),
                    ending: Some(Ok(())),
                }),
                TransitionView::Next { phase: next, reply: None } => drained == spec_drain(
                    next,
                    rest,
                    server_info,
                    max_len,
                ),
                TransitionView::Next { phase: next, reply: Some(answer) } => {
                    let after = spec_drain(next, rest, server_info, max_len);
                    match spec_write_frame(answer) {
                        Ok(reply) => drained == (DrainView {
                            phase: after.phase,
                            buffered: after.buffered,
                            sent: reply + after.sent,
                            ending: after.ending,
                        }),
                        Err(error) => drained == (DrainView {
                            phase: next,
                            buffered: rest,
                            sent: Seq::empty(),
                            ending: Some(Err(WorkerError::Protocol { source: error })),
                        }),
                    }
                },
            }
        }),
{
    lemma_advance_on_request(phase, frame, rest, server_info, max_len);
}

/// A client that has sent all its requests and closes leaves a worker that
/// holds nothing: the connection is dropped, and nothing more is sent.
pub proof fn lemma_drain_nothing(phase: SessionPhase, server_info: Seq<char>, max_len: nat)
    ensures
        spec_drain(phase, Seq::empty(), server_info, max_len) == (DrainView {
            phase,
            buffered: Seq::empty(),
            sent: Seq::empty(),
            ending: None,
        }),
        spec_run(phase, Seq::empty(), server_info, max_len) == (
            Seq::<u8>::empty(),
            Err::<(), WorkerError>(WorkerError::ConnectionDropped),
        ),
{
    reveal(spec_advance);
}

/// A handshake that asks for status, followed by a status request: the
/// server sends exactly one status response, which holds the server's
/// description, and then waits in the status phase, with nothing left to
/// handle. When the client closes instead of sending more, the connection
/// is dropped.
pub proof fn lemma_status_exchange(handshake: FrameView, server_info: Seq<char>, max_len: nat)
    requires
        handshake is Handshake,
        handshake->next_state == NEXT_STATE_STATUS,
        strings_within_limit(handshake),
        spec_encode_frame(handshake).len() <= max_len,
    ensures
        ({
            let input = spec_packet(spec_encode_frame(handshake)) + spec_packet(
                spec_encode_frame(FrameView::StatusRequest),
            );
            let answer = (FrameView::StatusResponse { json: server_info });
            match spec_write_frame(answer) {
                Ok(reply) => {
                    &&& spec_drain(SessionPhase::Handshake, input, server_info, max_len)
                        == (DrainView {
                        phase: SessionPhase::Status,
                        buffered: Seq::empty(),
                        sent: reply,
                        ending: None,
                    })
                    &&& spec_run(SessionPhase::Handshake, input, server_info, max_len) == (
                        reply,
                        Err::<(), WorkerError>(WorkerError::ConnectionDropped),
                    )
                },
                Err(error) => spec_run(SessionPhase::Handshake, input, server_info, max_len) == (
                    Seq::<u8>::empty(),
                    Err::<(), WorkerError>(WorkerError::Protocol { source: error }),
                ),
            }
        }),
{
    let request = spec_packet(spec_encode_frame(FrameView::StatusRequest));
    lemma_request_body_len(handshake);
    lemma_request_body_len(FrameView::StatusRequest);
    lemma_drain_on_request(SessionPhase::Handshake, handshake, request, server_info, max_len);
    lemma_drain_on_request(
        SessionPhase::Status,
        FrameView::StatusRequest,
        Seq::empty(),
        server_info,
        max_len,
    );
    lemma_drain_nothing(SessionPhase::Status, server_info, max_len);
    assert(request + Seq::<u8>::empty() =~= request);
    match spec_write_frame(FrameView::StatusResponse { json: server_info }) {
        Ok(reply) => {
            assert(reply + Seq::<u8>::empty() =~= reply);
        },
        Err(_) => {},
    }
}

/// A ping request in the status phase is answered with a ping response that
/// holds the very payload of the request, whatever follows the request.
pub proof fn lemma_ping_exchange(
    payload: i64,
    rest: Seq<u8>,
    server_info: Seq<char>,
    max_len: nat,
)
    requires
        max_len >= 9,
    ensures
        ({
            let request = spec_packet(spec_encode_frame(FrameView::PingRequest { payload }));
            let reply = spec_packet(spec_encode_frame(FrameView::PingResponse { payload }));
            let drained = spec_drain(SessionPhase::Status, request + rest, server_info, max_len);
            let after = spec_drain(SessionPhase::Status, rest, server_info, max_len);
            &&& reply == request
            &&& drained == (DrainView {
                phase: after.phase,
                buffered: after.buffered,
                sent: reply + after.sent,
                ending: after.ending,
            })
        }),
{
    let frame = FrameView::PingRequest { payload };
    lemma_request_body_len(frame);
    lemma_decode_encode_prefix(PING_ID, Seq::empty());
    lemma_i64_roundtrip(payload);
    lemma_drain_on_request(SessionPhase::Status, frame, rest, server_info, max_len);
}

/// A handshake that asks for anything but status makes the server close the
/// connection, with no byte sent, whatever follows the handshake.
pub proof fn lemma_other_handshake_closes(
    handshake: FrameView,
    rest: Seq<u8>,
    server_info: Seq<char>,
    max_len: nat,
)
    requires
        handshake is Handshake,
        handshake->next_state != NEXT_STATE_STATUS,
        strings_within_limit(handshake),
        spec_encode_frame(handshake).len() <= max_len,
    ensures
        spec_run(
            SessionPhase::Handshake,
            spec_packet(spec_encode_frame(handshake)) + rest,
            server_info,
            max_len,
        ) == (Seq::<u8>::empty(), Ok::<(), WorkerError>(())),
{
    lemma_drain_on_request(SessionPhase::Handshake, handshake, rest, server_info, max_len);
}

/// A packet that declares more bytes than the limit, or a negative count,
/// ends the connection as soon as its length has arrived: nothing is sent,
/// and it does not matter whether any of its body is there.
pub proof fn lemma_oversized_packet_ends(
    phase: SessionPhase,
    declared: i32,
    rest: Seq<u8>,
    server_info: Seq<char>,
    max_len: nat,
)
    requires
        declared < 0 || declared > max_len,
    ensures
        spec_run(phase, spec_encode(declared) + rest, server_info, max_len) == (
            Seq::<u8>::empty(),
            Err::<(), WorkerError>(
                WorkerError::Protocol { source: ProtocolError::PacketTooLarge },
            ),
        ),
{
    reveal(spec_advance);
    lemma_oversized_packet_refused(declared, rest, max_len);
}

} // verus!
