//! The handler of one connection.
//!
//! A worker owns the transport and the phase of its connection. It does no
//! I/O: the caller hands it the bytes that arrived, asks it what to do next,
//! and does it. `run_worker` plays a whole connection from the bytes that a
//! client sent.

use vstd::prelude::*;
use crate::error::{ProtocolError, WorkerError};
use crate::frame::{decode_frame, spec_decode_frame, FrameView};
use crate::phase::SessionPhase;
use crate::session::{spec_step, step, Transition, TransitionView};
use crate::transport::{
    lemma_incomplete_is_short, scan_packet, spec_write_frame, write_frame, PacketScan, Transport,
};
use crate::varint::lemma_decoded_len;

verus! {

/// What the caller of a worker has to do next.
#[derive(Clone, Debug, PartialEq, Eq)]
pub enum Action {
    /// Wait for more bytes from the peer and hand them to the worker, or
    /// tell it that the peer has closed the connection.
    Read,
    /// Nothing: a packet was handled that asks for no reply.
    Continue,
    /// Send this packet to the peer.
    Reply { packet: Vec<u8> },
    /// Close the connection.
    Close,
}

/// The result of handling the head of the bytes received.
pub enum Outcome {
    Read,
    Continue,
    Reply { packet: Seq<u8> },
    Close,
    Fail { error: WorkerError },
}

/// A worker after one step: its phase, the bytes it still holds, and what
/// came of the step.
pub struct StepView {
    pub phase: SessionPhase,
    pub buffered: Seq<u8>,
    pub outcome: Outcome,
}

/// What comes of sending `answer`: its packet goes out, or the step fails
/// because the packet cannot be written.
pub open spec fn spec_send(answer: FrameView) -> Outcome {
    match spec_write_frame(answer) {
        Ok(packet) => Outcome::Reply { packet },
        Err(error) => Outcome::Fail { error: WorkerError::Protocol { source: error } },
    }
}

/// One step of a worker in `phase` that holds `buffered`.
///
/// Where no whole packet is held, the worker asks for more bytes and nothing
/// changes. Where no packet can be read, it fails and nothing changes.
/// Otherwise the packet is taken from the bytes held, whatever comes of it:
/// a failure where its body holds no frame that is legal in the phase, or
/// where the reply cannot be written; else what the transition table says.
#[verifier::opaque]
pub open spec fn spec_advance(
    phase: SessionPhase,
    buffered: Seq<u8>,
    server_info: Seq<char>,
    max_len: nat,
) -> StepView {
    match scan_packet(buffered, max_len) {
        PacketScan::Incomplete => StepView { phase, buffered, outcome: Outcome::Read },
        PacketScan::Invalid { error } => StepView {
            phase,
            buffered,
            outcome: Outcome::Fail { error: WorkerError::Protocol { source: error } },
        },
        PacketScan::Complete { prefix, len } => {
            let body = buffered.subrange(prefix as int, (prefix + len) as int);
            let rest = buffered.skip((prefix + len) as int);
            match spec_decode_frame(body, phase) {
                Err(error) => StepView {
                    phase,
                    buffered: rest,
                    outcome: Outcome::Fail { error: WorkerError::Protocol { source: error } },
                },
                Ok(frame) => match spec_step(phase, frame, server_info) {
                    TransitionView::Close => StepView {
                        phase,
                        buffered: rest,
                        outcome: Outcome::Close,
                    },
                    TransitionView::Next { phase: next, reply: None } => StepView {
                        phase: next,
                        buffered: rest,
                        outcome: Outcome::Continue,
                    },
                    TransitionView::Next { phase: next, reply: Some(answer) } => StepView {
                        phase: next,
                        buffered: rest,
                        outcome: spec_send(answer),
                    },
                },
            }
        },
    }
}

/// How a connection ends when the peer closes it while the worker holds
/// `buffered`: dropped where the peer closed between two packets, cut short
/// where it closed inside one.
pub open spec fn spec_peer_closed(buffered: Seq<u8>) -> WorkerError {
    if buffered.len() == 0 {
        WorkerError::ConnectionDropped
    } else {
        WorkerError::Protocol { source: ProtocolError::UnexpectedEof }
    }
}

/// A worker after it has handled all that it can of the bytes it held: its
/// phase, the bytes left, the bytes sent meanwhile, and how the connection
/// ended, if it did.
pub struct DrainView {
    pub phase: SessionPhase,
    pub buffered: Seq<u8>,
    pub sent: Seq<u8>,
    pub ending: Option<Result<(), WorkerError>>,
}

/// Step after step, until the worker asks for more bytes or the connection
/// ends: well where the server closes it, with the error where a step fails.
pub open spec fn spec_drain(
    phase: SessionPhase,
    buffered: Seq<u8>,
    server_info: Seq<char>,
    max_len: nat,
) -> DrainView
    decreases buffered.len(),
    via spec_drain_decreases
{
    let step = spec_advance(phase, buffered, server_info, max_len);
    match step.outcome {
        Outcome::Read => DrainView { phase, buffered, sent: Seq::empty(), ending: None },
        Outcome::Close => DrainView {
            phase: step.phase,
            buffered: step.buffered,
            sent: Seq::empty(),
            ending: Some(Ok(())),
        },
        Outcome::Fail { error } => DrainView {
            phase: step.phase,
            buffered: step.buffered,
            sent: Seq::empty(),
            ending: Some(Err(error)),
        },
        Outcome::Continue => spec_drain(step.phase, step.buffered, server_info, max_len),
        Outcome::Reply { packet } => {
            let rest = spec_drain(step.phase, step.buffered, server_info, max_len);
            DrainView {
                phase: rest.phase,
                buffered: rest.buffered,
                sent: packet + rest.sent,
                ending: rest.ending,
            }
        },
    }
}

#[via_fn]
proof fn spec_drain_decreases(
    phase: SessionPhase,
    buffered: Seq<u8>,
    server_info: Seq<char>,
    max_len: nat,
) {
    lemma_advance_consumes(phase, buffered, server_info, max_len);
}

/// A whole connection: what the server sends, and how the connection ends,
/// when a client sends `input` and then closes. The worker starts in `phase`
/// and handles all that it can. Where the connection has not ended by then,
/// it ends because the peer has closed.
pub open spec fn spec_run(
    phase: SessionPhase,
    input: Seq<u8>,
    server_info: Seq<char>,
    max_len: nat,
) -> (Seq<u8>, Result<(), WorkerError>) {
    let drained = spec_drain(phase, input, server_info, max_len);
    match drained.ending {
        Some(ending) => (drained.sent, ending),
        None => (drained.sent, Err(spec_peer_closed(drained.buffered))),
    }
}

/// A step that asks for more bytes changes nothing, and a step after which
/// the connection goes on has taken a packet from the bytes held.
pub proof fn lemma_advance_consumes(
    phase: SessionPhase,
    buffered: Seq<u8>,
    server_info: Seq<char>,
    max_len: nat,
)
    ensures
        ({
            let step = spec_advance(phase, buffered, server_info, max_len);
            &&& step.buffered.len() <= buffered.len()
            &&& step.outcome is Read ==> step.phase == phase && step.buffered == buffered
            &&& step.outcome is Continue || step.outcome is Reply ==> step.buffered.len()
                < buffered.len()
        }),
{
    reveal(spec_advance);
    lemma_decoded_len(buffered);
}

/// The handler of one connection.
pub struct Worker {
    transport: Transport,
    phase: SessionPhase,
}

impl Worker {
    /// The phase that the session has reached.
    pub closed spec fn phase_of(&self) -> SessionPhase {
        self.phase
    }

    /// The bytes that have arrived and not yet been handled.
    pub closed spec fn buffered(&self) -> Seq<u8> {
        self.transport.buffered()
    }

    /// The most bytes the body of a packet may have.
    pub closed spec fn max_len(&self) -> nat {
        self.transport.max_len()
    }

    /// A worker for a fresh connection: in the handshake phase, with nothing
    /// received, accepting packet bodies of up to `max_packet_len` bytes.
    pub fn new(max_packet_len: usize) -> (worker: Worker)
        ensures
            worker.phase_of() == SessionPhase::Handshake,
            worker.buffered() == Seq::<u8>::empty(),
            worker.max_len() == max_packet_len,
    {
        Worker { transport: Transport::new(max_packet_len), phase: SessionPhase::Handshake }
    }

    /// The phase that the session has reached.
    pub fn phase(&self) -> (phase: SessionPhase)
        ensures
            phase == self.phase_of(),
    {
        self.phase
    }

    /// The number of bytes that have arrived and not yet been handled.
    pub fn buffered_len(&self) -> (len: usize)
        ensures
            len == self.buffered().len(),
    {
        self.transport.buffered_len()
    }

    /// Takes in bytes that arrived from the peer.
    pub fn receive(&mut self, bytes: &[u8])
        ensures
            final(self).buffered() == old(self).buffered() + bytes@,
            final(self).phase_of() == old(self).phase_of(),
            final(self).max_len() == old(self).max_len(),
    {
        self.transport.receive(bytes);
    }

    /// Handles the packet at the head of the bytes received, if a whole one
    /// is there, and says what the caller has to do next. A worker that asks
    /// for more bytes holds no more than its limit and five bytes of length.
    pub fn advance(&mut self, server_info: &str) -> (res: Result<Action, WorkerError>)
        ensures
            final(self).max_len() == old(self).max_len(),
            res matches Ok(Action::Read) ==> final(self).buffered().len() <= old(self).max_len()
                + 5,
            ({
                let step = spec_advance(
                    old(self).phase_of(),
                    old(self).buffered(),
                    server_info@,
                    old(self).max_len(),
                );
                &&& final(self).phase_of() == step.phase
                &&& final(self).buffered() == step.buffered
                &&& match step.outcome {
                    Outcome::Read => res matches Ok(Action::Read),
                    Outcome::Continue => res matches Ok(Action::Continue),
                    Outcome::Reply { packet } => res matches Ok(Action::Reply { packet: sent })
                        && sent@ == packet,
                    Outcome::Close => res matches Ok(Action::Close),
                    Outcome::Fail { error } => res matches Err(e) && e == error,
                }
            }),
    {
        proof {
            reveal(spec_advance);
            if scan_packet(self.buffered(), self.max_len()) is Incomplete {
                lemma_incomplete_is_short(self.buffered(), self.max_len());
            }
        }
        let body = match self.transport.read_packet() {
            Ok(Some(body)) => body,
            Ok(None) => {
                return Ok(Action::Read);
            },
            Err(e) => {
                return Err(WorkerError::Protocol { source: e });
            },
        };
        let frame = match decode_frame(body.as_slice(), self.phase) {
            Ok(frame) => frame,
            Err(e) => {
                return Err(WorkerError::Protocol { source: e });
            },
        };
        match step(self.phase, &frame, server_info) {
            Transition::Close => Ok(Action::Close),
            Transition::Next { phase, reply: None } => {
                self.phase = phase;
                Ok(Action::Continue)
            },
            Transition::Next { phase, reply: Some(answer) } => {
                self.phase = phase;
                match write_frame(&answer) {
                    Ok(packet) => Ok(Action::Reply { packet }),
                    Err(e) => Err(WorkerError::Protocol { source: e }),
                }
            },
        }
    }

    /// Says how the connection ends when the peer closes it now.
    pub fn peer_closed(&self) -> (error: WorkerError)
        ensures
            error == spec_peer_closed(self.buffered()),
    {
        match self.transport.end_of_stream() {
            Ok(_) => WorkerError::ConnectionDropped,
            Err(e) => WorkerError::Protocol { source: e },
        }
    }
}

/// Handles a single client connection, played from the bytes that the client
/// sent before it closed: gives the bytes that the server sends, and how the
/// connection ends.
pub fn run_worker(input: &[u8], server_info: &str, max_packet_len: usize) -> (res: (
    Vec<u8>,
    Result<(), WorkerError>,
))
    ensures
        res.0@ == spec_run(SessionPhase::Handshake, input@, server_info@, max_packet_len as nat).0,
        res.1 == spec_run(SessionPhase::Handshake, input@, server_info@, max_packet_len as nat).1,
{
    let mut worker = Worker::new(max_packet_len);
    worker.receive(input);
    let mut sent: Vec<u8> = Vec::new();
    let ghost whole = spec_drain(
        SessionPhase::Handshake,
        input@,
        server_info@,
        max_packet_len as nat,
    );
    proof {
        assert(Seq::<u8>::empty() + input@ =~= input@);
        assert(sent@ + whole.sent =~= whole.sent);
    }
    loop
        invariant
            worker.max_len() == max_packet_len,
            whole == spec_drain(
                SessionPhase::Handshake,
                input@,
                server_info@,
                max_packet_len as nat,
            ),
            ({
                let ahead = spec_drain(
                    worker.phase_of(),
                    worker.buffered(),
                    server_info@,
                    max_packet_len as nat,
                );
                &&& whole.sent == sent@ + ahead.sent
                &&& whole.ending == ahead.ending
                &&& whole.buffered == ahead.buffered
            }),
        decreases worker.buffered().len(),
    {
        proof {
            lemma_advance_consumes(
                worker.phase_of(),
                worker.buffered(),
                server_info@,
                max_packet_len as nat,
            );
        }
        let ghost before = sent@;
        match worker.advance(server_info) {
            Ok(Action::Read) => {
                let error = worker.peer_closed();
                proof {
                    assert(sent@ + Seq::<u8>::empty() =~= sent@);
                }
                return (sent, Err(error));
            },
            Ok(Action::Continue) => {},
            Ok(Action::Reply { packet }) => {
                let ghost rest = spec_drain(
                    worker.phase_of(),
                    worker.buffered(),
                    server_info@,
                    max_packet_len as nat,
                ).sent;
                sent.extend_from_slice(packet.as_slice());
                proof {
                    assert(sent@ =~= before + packet@);
                    assert(sent@ + rest =~= before + (packet@ + rest));
                }
            },
            Ok(Action::Close) => {
                proof {
                    assert(sent@ + Seq::<u8>::empty() =~= sent@);
                }
                return (sent, Ok(()));
            },
            Err(error) => {
                proof {
                    assert(sent@ + Seq::<u8>::empty() =~= sent@);
                }
                return (sent, Err(error));
            },
        }
    }
}

} // verus!
