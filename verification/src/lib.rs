//! A simulated ring of processes running a leader-election protocol.
//!
//! A fixed set of members, addressed by id, circulate an election ballot,
//! bypass inactive members through a ping/pong liveness probe, and relay
//! election results, fault-injection toggles and a shutdown signal along
//! the fixed ring successor chain.

use vstd::prelude::*;

pub mod chan;
pub mod driver;
pub mod member;
pub mod msg;
pub mod ring;
pub mod scenario_text;

verus! {

/// The ring size of the built-in scenario.
pub const RING_SIZE: usize = 3;

/// Errors a ring member or the probe layer can report.
#[derive(Clone, Copy, Debug, PartialEq, Eq, Structural)]
pub enum RingError {
    /// The probe found no responsive member in a full ring lap.
    NoResponse,
    /// A message was addressed to an id outside the fabric.
    UnknownMember,
    /// A mailbox was closed: a peer has already terminated.
    ChannelClosed,
    /// A ballot whose length does not match the ring size.
    MalformedBallot,
    /// Reentrant message handling exceeded its depth budget.
    DepthExceeded,
}

} // verus!
