//! Core of a permissioned BFT state-machine-replication system built around an
//! authenticated ordered-multicast primitive.
//!
//! The crate holds the verified protocol logic: the wire codec, the block
//! chain, the HotStuff-style three-chain replica and its client, the
//! ordered-multicast sequencer and receiver delegate, and a model of the
//! event multiplex.  All I/O (sockets, timers, async plumbing) lives outside
//! the library; the protocol code here turns incoming values into state
//! updates and lists of outgoing actions.

pub mod addr;
pub mod chain;
pub mod hotstuff;
pub mod messages;
pub mod multicast;
pub mod reactor;
pub mod unreplicated;
pub mod codec;
pub mod crypto;
pub mod kv;

use vstd::prelude::*;

verus! {

} // verus!
