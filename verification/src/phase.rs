//! The phases of a session.

use vstd::prelude::*;

verus! {

/// The point a session has reached. Packet ids are reused between phases, so
/// a packet can only be read with the phase at hand.
#[derive(Clone, Copy, Debug, PartialEq, Eq, Structural)]
pub enum SessionPhase {
    /// A fresh connection: only a handshake may arrive.
    Handshake,
    /// The handshake asked for status: status and ping requests may arrive.
    Status,
}

} // verus!
