//! A uTP (Micro Transport Protocol) endpoint core: a reliable, in-order,
//! congestion-controlled byte stream layered on unreliable datagrams.
//!
//! The crate holds the connection state machine together with the pieces it
//! is built from: the on-wire packet codec, the incoming reorder buffer, the
//! outgoing send window, and the LEDBAT-style delay and congestion
//! controller. Datagram sockets and clocks stay outside; callers feed
//! decoded packets and microsecond timestamps in and transmit the packets
//! handed back.

pub mod buffer;
pub mod congestion;
pub mod packet;
pub mod sack;
pub mod send;
pub mod socket;
pub mod window;

use vstd::prelude::*;

verus! {

/// Highest payload a single datagram is assumed to carry (Ethernet MTU).
pub const BUF_SIZE: usize = 1500;

} // verus!
