//! Bytes that arrive in pieces.
//!
//! A connection hands its bytes over in whatever pieces the network makes of
//! them. This module shows that the pieces do not matter: a worker that is
//! fed chunk by chunk sends what it would send if it had the whole input at
//! once, and ends as it would end then.

use vstd::prelude::*;
use crate::error::WorkerError;
use crate::phase::SessionPhase;
use crate::transport::{lemma_scan_more_bytes, scan_packet, PacketScan};
use crate::worker::{
    lemma_advance_consumes, spec_advance, spec_drain, spec_peer_closed, spec_run, Action,
    Outcome, Worker,
};

verus! {

/// A whole connection whose bytes arrive in pieces: the worker holds `held`
/// and handles all that it can, then takes in the next of `chunks` and goes
/// on; after the last one the peer closes.
pub open spec fn spec_stream(
    phase: SessionPhase,
    held: Seq<u8>,
    chunks: Seq<Seq<u8>>,
    server_info: Seq<char>,
    max_len: nat,
) -> (Seq<u8>, Result<(), WorkerError>)
    decreases chunks.len(),
{
    let drained = spec_drain(phase, held, server_info, max_len);
    match drained.ending {
        Some(ending) => (drained.sent, ending),
        None => if chunks.len() == 0 {
            (drained.sent, Err(spec_peer_closed(drained.buffered)))
        } else {
            let rest = spec_stream(
                drained.phase,
                drained.buffered + chunks[0],
                chunks.skip(1),
                server_info,
                max_len,
            );
            (drained.sent + rest.0, rest.1)
        },
    }
}

/// All the bytes of `chunks`, in order.
pub open spec fn spec_concat(chunks: Seq<Seq<u8>>) -> Seq<u8>
    decreases chunks.len(),
{
    if chunks.len() == 0 {
        Seq::empty()
    } else {
        chunks[0] + spec_concat(chunks.skip(1))
    }
}

/// A step never changes its mind: once the worker can take a step on the
/// bytes it holds, bytes that arrive behind them change nothing about the
/// step, and are left behind it.
pub proof fn lemma_advance_more_bytes(
    phase: SessionPhase,
    buffered: Seq<u8>,
    more: Seq<u8>,
    server_info: Seq<char>,
    max_len: nat,
)
    requires
        !(spec_advance(phase, buffered, server_info, max_len).outcome is Read),
    ensures
        ({
            let step = spec_advance(phase, buffered, server_info, max_len);
            let later = spec_advance(phase, buffered + more, server_info, max_len);
            &&& later.phase == step.phase
            &&& later.outcome == step.outcome
            &&& later.buffered == step.buffered + more
        }),
{
    reveal(spec_advance);
    lemma_scan_more_bytes(buffered, more, max_len);
    match scan_packet(buffered, max_len) {
        PacketScan::Complete { prefix, len } => {
            let end = (prefix + len) as int;
            assert((buffered + more).subrange(prefix as int, end) =~= buffered.subrange(
                prefix as int,
                end,
            ));
            assert((buffered + more).skip(end) =~= buffered.skip(end) + more);
        },
        _ => {},
    }
}

/// Handling all of the bytes held and then more comes to the same as
/// handling them together.
pub proof fn lemma_drain_more_bytes(
    phase: SessionPhase,
    buffered: Seq<u8>,
    more: Seq<u8>,
    server_info: Seq<char>,
    max_len: nat,
)
    ensures
        ({
            let first = spec_drain(phase, buffered, server_info, max_len);
            let whole = spec_drain(phase, buffered + more, server_info, max_len);
            match first.ending {
                Some(_) => {
                    &&& whole.phase == first.phase
                    &&& whole.buffered == first.buffered + more
                    &&& whole.sent == first.sent
                    &&& whole.ending == first.ending
                },
                None => {
                    let second = spec_drain(
                        first.phase,
                        first.buffered + more,
                        server_info,
                        max_len,
                    );
                    &&& whole.phase == second.phase
                    &&& whole.buffered == second.buffered
                    &&& whole.sent == first.sent + second.sent
                    &&& whole.ending == second.ending
                },
            }
        }),
    decreases buffered.len(),
{
    let step = spec_advance(phase, buffered, server_info, max_len);
    let first = spec_drain(phase, buffered, server_info, max_len);
    let whole = spec_drain(phase, buffered + more, server_info, max_len);
    if step.outcome is Read {
        assert(Seq::<u8>::empty() + whole.sent =~= whole.sent);
    } else {
        lemma_advance_consumes(phase, buffered, server_info, max_len);
        lemma_advance_more_bytes(phase, buffered, more, server_info, max_len);
        match step.outcome {
            Outcome::Continue => {
                lemma_drain_more_bytes(step.phase, step.buffered, more, server_info, max_len);
            },
            Outcome::Reply { packet } => {
                lemma_drain_more_bytes(step.phase, step.buffered, more, server_info, max_len);
                let rest = spec_drain(step.phase, step.buffered, server_info, max_len);
                if rest.ending is None {
                    let second = spec_drain(
                        rest.phase,
                        rest.buffered + more,
                        server_info,
                        max_len,
                    );
                    assert(packet + (rest.sent + second.sent) =~= (packet + rest.sent)
                        + second.sent);
                }
            },
            _ => {},
        }
    }
}

/// It does not matter how the bytes of a connection arrive: whatever pieces
/// the input comes in, the server sends the same bytes, and the connection
/// ends in the same way, as when the whole input is there from the start.
pub proof fn lemma_stream_is_run(
    phase: SessionPhase,
    held: Seq<u8>,
    chunks: Seq<Seq<u8>>,
    server_info: Seq<char>,
    max_len: nat,
)
    ensures
        spec_stream(phase, held, chunks, server_info, max_len) == spec_run(
            phase,
            held + spec_concat(chunks),
            server_info,
            max_len,
        ),
    decreases chunks.len(),
{
    let more = spec_concat(chunks);
    let drained = spec_drain(phase, held, server_info, max_len);
    lemma_drain_more_bytes(phase, held, more, server_info, max_len);
    if chunks.len() == 0 {
        assert(held + more =~= held);
    } else if drained.ending is None {
        let later = spec_concat(chunks.skip(1));
        lemma_stream_is_run(
            drained.phase,
            drained.buffered + chunks[0],
            chunks.skip(1),
            server_info,
            max_len,
        );
        assert((drained.buffered + chunks[0]) + later =~= drained.buffered + more);
    }
}

/// The contents of chunks held in vectors.
pub open spec fn chunk_views(chunks: Seq<Vec<u8>>) -> Seq<Seq<u8>> {
    Seq::new(chunks.len(), |i: int| chunks[i]@)
}

/// One step of a connection whose bytes arrive in pieces: a step that the
/// worker can take on the bytes it holds comes first, and the rest of the
/// connection follows it.
proof fn lemma_stream_step(
    phase: SessionPhase,
    held: Seq<u8>,
    chunks: Seq<Seq<u8>>,
    server_info: Seq<char>,
    max_len: nat,
)
    ensures
        ({
            let step = spec_advance(phase, held, server_info, max_len);
            let whole = spec_stream(phase, held, chunks, server_info, max_len);
            let after = spec_stream(step.phase, step.buffered, chunks, server_info, max_len);
            match step.outcome {
                Outcome::Read => whole == if chunks.len() == 0 {
                    (Seq::<u8>::empty(), Err::<(), WorkerError>(spec_peer_closed(held)))
                } else {
                    spec_stream(phase, held + chunks[0], chunks.skip(1), server_info, max_len)
                },
                Outcome::Continue => whole == after,
                Outcome::Reply { packet } => whole == (packet + after.0, after.1),
                Outcome::Close => whole == (Seq::<u8>::empty(), Ok::<(), WorkerError>(())),
                Outcome::Fail { error } => whole == (
                    Seq::<u8>::empty(),
                    Err::<(), WorkerError>(error),
                ),
            }
        }),
{
    let step = spec_advance(phase, held, server_info, max_len);
    lemma_advance_consumes(phase, held, server_info, max_len);
    match step.outcome {
        Outcome::Read => {
            if chunks.len() > 0 {
                let later = spec_stream(
                    phase,
                    held + chunks[0],
                    chunks.skip(1),
                    server_info,
                    max_len,
                );
                assert(Seq::<u8>::empty() + later.0 =~= later.0);
            }
        },
        Outcome::Reply { packet } => {
            let rest = spec_drain(step.phase, step.buffered, server_info, max_len);
            if rest.ending is None && chunks.len() > 0 {
                let later = spec_stream(
                    rest.phase,
                    rest.buffered + chunks[0],
                    chunks.skip(1),
                    server_info,
                    max_len,
                );
                assert((packet + rest.sent) + later.0 =~= packet + (rest.sent + later.0));
            }
        },
        _ => {},
    }
}

/// Handles a single client connection whose bytes arrive in `chunks`, the
/// way a caller with a socket does: it lets the worker handle all that it
/// can, and only then hands it the next chunk. Gives the bytes that the
/// server sends and how the connection ends, which are those of `run_worker`
/// on all the bytes at once.
pub fn run_stream(chunks: &[Vec<u8>], server_info: &str, max_packet_len: usize) -> (res: (
    Vec<u8>,
    Result<(), WorkerError>,
))
    ensures
        res.0@ == spec_run(
            SessionPhase::Handshake,
            spec_concat(chunk_views(chunks@)),
            server_info@,
            max_packet_len as nat,
        ).0,
        res.1 == spec_run(
            SessionPhase::Handshake,
            spec_concat(chunk_views(chunks@)),
            server_info@,
            max_packet_len as nat,
        ).1,
{
    let mut worker = Worker::new(max_packet_len);
    let mut sent: Vec<u8> = Vec::new();
    let mut next: usize = 0;
    let ghost all = chunk_views(chunks@);
    let ghost whole = spec_stream(
        SessionPhase::Handshake,
        Seq::empty(),
        all,
        server_info@,
        max_packet_len as nat,
    );
    proof {
        lemma_stream_is_run(
            SessionPhase::Handshake,
            Seq::empty(),
            all,
            server_info@,
            max_packet_len as nat,
        );
        assert(Seq::<u8>::empty() + spec_concat(all) =~= spec_concat(all));
        assert(all.skip(0) =~= all);
        assert(sent@ + whole.0 =~= whole.0);
    }
    loop
        invariant
            next <= chunks@.len(),
            all == chunk_views(chunks@),
            whole == spec_run(
                SessionPhase::Handshake,
                spec_concat(all),
                server_info@,
                max_packet_len as nat,
            ),
            worker.max_len() == max_packet_len,
            ({
                let ahead = spec_stream(
                    worker.phase_of(),
                    worker.buffered(),
                    all.skip(next as int),
                    server_info@,
                    max_packet_len as nat,
                );
                &&& whole.0 == sent@ + ahead.0
                &&& whole.1 == ahead.1
            }),
        decreases chunks@.len() - next, worker.buffered().len(),
    {
        proof {
            lemma_advance_consumes(
                worker.phase_of(),
                worker.buffered(),
                server_info@,
                max_packet_len as nat,
            );
            lemma_stream_step(
                worker.phase_of(),
                worker.buffered(),
                all.skip(next as int),
                server_info@,
                max_packet_len as nat,
            );
        }
        let ghost before = sent@;
        match worker.advance(server_info) {
            Ok(Action::Read) => {
                if next == chunks.len() {
                    let error = worker.peer_closed();
                    proof {
                        assert(sent@ + Seq::<u8>::empty() =~= sent@);
                    }
                    return (sent, Err(error));
                }
                worker.receive(chunks[next].as_slice());
                proof {
                    assert(all.skip(next as int)[0] == chunks@[next as int]@);
                    assert(all.skip(next as int).skip(1) =~= all.skip(next + 1));
                }
                next = next + 1;
            },
            Ok(Action::Continue) => {},
            Ok(Action::Reply { packet }) => {
                let ghost rest = spec_stream(
                    worker.phase_of(),
                    worker.buffered(),
                    all.skip(next as int),
                    server_info@,
                    max_packet_len as nat,
                ).0;
                sent.extend_from_slice(packet.as_slice());
                proof {
                    assert(sent@ =~= before + packet@);
                    assert(sent@ + rest =~= before + (packet@ + rest));
                }
            },
            Ok(Action::Close) => {
                proof {
                    assert(sent@ + Seq::<u8>::empty() =~= sent@);
                }
                return (sent, Ok(()));
            },
            Err(error) => {
                proof {
                    assert(sent@ + Seq::<u8>::empty() =~= sent@);
                }
                return (sent, Err(error));
            },
        }
    }
}

} // verus!
