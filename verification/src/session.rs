//! The session state machine: which frames are legal in which phase, and
//! what the server answers.
//!
//! A session starts in the handshake phase and moves once, to the status
//! phase, on a handshake that asks for status. There it answers status and
//! ping requests for as long as the client sends them. Every other frame
//! closes the connection.

use vstd::prelude::*;
use crate::frame::{Frame, FrameView, NEXT_STATE_STATUS};
use crate::phase::SessionPhase;

verus! {

/// What the server does with a frame.
#[derive(Clone, Debug, PartialEq, Eq)]
pub enum Transition {
    /// Goes on in `phase`, after sending `reply` if there is one.
    Next { phase: SessionPhase, reply: Option<Frame> },
    /// Closes the connection without sending anything.
    Close,
}

/// A transition as a mathematical value.
pub enum TransitionView {
    Next { phase: SessionPhase, reply: Option<FrameView> },
    Close,
}

impl View for Transition {
    type V = TransitionView;

    open spec fn view(&self) -> TransitionView {
        match self {
            Transition::Next { phase, reply } => TransitionView::Next {
                phase: *phase,
                reply: match reply {
                    Some(frame) => Some(frame@),
                    None => None,
                },
            },
            Transition::Close => TransitionView::Close,
        }
    }
}

/// The transition table.
///
/// In the handshake phase a handshake that asks for status leads to the
/// status phase, without a reply; a handshake that asks for anything else,
/// and every other frame, closes the connection. In the status phase a status
/// request is answered with the server's description and a ping request with
/// its own payload, and the phase stays; every other frame closes the
/// connection.
pub open spec fn spec_step(
    phase: SessionPhase,
    frame: FrameView,
    server_info: Seq<char>,
) -> TransitionView {
    match phase {
        SessionPhase::Handshake => match frame {
            FrameView::Handshake { next_state, .. } => if next_state == NEXT_STATE_STATUS {
                TransitionView::Next { phase: SessionPhase::Status, reply: None }
            } else {
                TransitionView::Close
            },
            _ => TransitionView::Close,
        },
        SessionPhase::Status => match frame {
            FrameView::StatusRequest => TransitionView::Next {
                phase: SessionPhase::Status,
                reply: Some(FrameView::StatusResponse { json: server_info }),
            },
            FrameView::PingRequest { payload } => TransitionView::Next {
                phase: SessionPhase::Status,
                reply: Some(FrameView::PingResponse { payload }),
            },
            _ => TransitionView::Close,
        },
    }
}

/// A handshake decides the session at once: one that asks for status leads
/// to the status phase and is not answered, and one that asks for anything
/// else, such as a login, closes the connection and is not answered either.
pub proof fn lemma_handshake_decides(handshake: FrameView, server_info: Seq<char>)
    requires
        handshake is Handshake,
    ensures
        handshake->next_state == NEXT_STATE_STATUS ==> spec_step(
            SessionPhase::Handshake,
            handshake,
            server_info,
        ) == (TransitionView::Next { phase: SessionPhase::Status, reply: None }),
        handshake->next_state != NEXT_STATE_STATUS ==> spec_step(
            SessionPhase::Handshake,
            handshake,
            server_info,
        ) == TransitionView::Close,
{
}

/// The phase in which every session starts.
pub fn initial_phase() -> (phase: SessionPhase)
    ensures
        phase == SessionPhase::Handshake,
{
    SessionPhase::Handshake
}

/// Decides what to do with `frame`, which arrived in `phase`, on a server
/// whose description is `server_info`.
pub fn step(phase: SessionPhase, frame: &Frame, server_info: &str) -> (transition: Transition)
    ensures
        transition@ == spec_step(phase, frame@, server_info@),
{
    match phase {
        SessionPhase::Handshake => match frame {
            Frame::Handshake { next_state, .. } => {
                if *next_state == NEXT_STATE_STATUS {
                    Transition::Next { phase: SessionPhase::Status, reply: None }
                } else {
                    Transition::Close
                }
            },
            _ => Transition::Close,
        },
        SessionPhase::Status => match frame {
            Frame::StatusRequest => Transition::Next {
                phase: SessionPhase::Status,
                reply: Some(Frame::StatusResponse { json: server_info.to_owned() }),
            },
            Frame::PingRequest { payload } => Transition::Next {
                phase: SessionPhase::Status,
                reply: Some(Frame::PingResponse { payload: *payload }),
            },
            _ => Transition::Close,
        },
    }
}

} // verus!
