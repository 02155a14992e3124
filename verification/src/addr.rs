//! Destinations and outgoing actions of the protocol state machines.
//!
//! Protocol code never touches a socket: every handler returns the list of
//! sends and timer operations it decided on, and the surrounding runtime
//! performs them.  Addresses are plain values (an IPv4 address and a port);
//! the runtime resolves the symbolic destinations through its address table.

use vstd::prelude::*;

use crate::chain::Request;
use crate::messages::{Generic, Reply, Vote};

verus! {

/// A network address as the protocol sees it.
#[derive(Clone, Copy, Debug, PartialEq, Eq, Structural)]
pub enum Addr {
    /// An IPv4 socket address: the four address bytes as one integer, then
    /// the port.
    Socket(u32, u16),
    /// The ordered-multicast group.
    Multicast,
    /// Delivery upward to a co-located node.
    Upcall,
}

/// Where a message is to go.  The symbolic destinations resolve through the
/// runtime's static address table.
#[derive(Clone, Copy, Debug, PartialEq, Eq, Structural)]
pub enum To {
    Addr(Addr),
    AllReplica,
    AllReplicaWithLoopback,
    Loopback,
    Replica(u8),
    Client(u16),
}

/// An unsigned payload the protocol hands to the runtime, which signs and
/// serializes it.
pub enum Payload {
    Request(Request),
    Reply(Reply),
    Generic(Generic),
    Vote(Vote),
}

/// One decision of a protocol handler, over the protocol's own payload
/// type.
pub enum Action<P> {
    Send(To, P),
    /// Arm the resend timer with this period in milliseconds.
    SetTimer(u64),
    /// Cancel the resend timer.
    UnsetTimer,
}

} // verus!
