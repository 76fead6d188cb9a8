//! A reliable-optional datagram transport core: wire codec, delivered-interval
//! bookkeeping, message fragmentation and reassembly, and the per-connection
//! protocol engine. The crate performs no I/O: the caller supplies the clock,
//! hands in the datagrams that arrived and sends the datagrams it is given.
//!
//! Times and durations are nanoseconds in `u128`.

use vstd::prelude::*;

pub mod connection;
pub mod intervals;
pub mod laws;
pub mod laws_path;
pub mod laws_rounds;
pub mod laws_waves;
pub mod message;
pub mod metrics;
pub mod packer;
pub mod packet;
pub mod prelude;
pub mod socket;
pub mod typed;

verus! {

/// A peer's socket address, as plain values.
#[derive(Clone, Copy, Debug, PartialEq, Eq, Structural, Hash)]
pub enum Address {
    /// An IPv4 address, as its four octets most significant first, and a port.
    V4 { host: u32, port: u16 },
    /// An IPv6 address, as its sixteen octets most significant first, a
    /// port, the flow information and the scope identifier.
    V6 { host6: u128, port: u16, flowinfo: u32, scope_id: u32 },
}

/// The tunables of an endpoint.
#[derive(Clone, Copy, Debug)]
pub struct Config {
    /// A handshake only opens a connection when the protocol identifiers agree.
    pub protocol_id: u64,
    /// The size of a packet at which it is sent off. Larger messages are
    /// fragmented, smaller ones share a packet.
    pub mtu: u16,
    /// The period between heartbeats, which keep the connection alive and
    /// measure the round trip time.
    pub heartbeat_interval: u128,
    /// The period between handshakes while a connection is pending.
    pub handshake_interval: u128,
    /// How many round trip time samples the estimate is averaged over.
    pub rtt_memory: usize,
    /// How long after the last packet from the peer a connection is dropped.
    pub timeout_delay: u128,
}

/// The waiting times that follow from the round trip time estimate.
#[derive(Clone, Copy, Debug)]
pub struct Delays {
    /// How long after a transmission an unacknowledged reliable message is
    /// sent again.
    pub resend: u128,
    /// How long after its last fragment an incomplete unreliable message is
    /// given up.
    pub unreliable_drop: u128,
    /// How long the identifier of a completed reliable message is remembered.
    pub blacklist_memory: u128,
}

/// What can go wrong within the engine.
#[derive(Clone, Copy, Debug, PartialEq, Eq, Structural)]
pub enum Error {
    /// The configured MTU leaves no room for a blob that has to be sent.
    MtuTooSmall,
    /// A datagram from `addr` was no packet, or a blob in it contradicts
    /// the state of the connection.
    MalformedPacket { addr: Address },
}

impl Default for Config {
    fn default() -> (config: Self)
        ensures
            config == (Config {
                protocol_id: 0,
                mtu: 1500,
                heartbeat_interval: 500_000_000,
                handshake_interval: 100_000_000,
                rtt_memory: 16,
                timeout_delay: 10_000_000_000,
            }),
    {
        Config {
            protocol_id: 0,
            mtu: 1500,
            heartbeat_interval: 500_000_000,
            handshake_interval: 100_000_000,
            rtt_memory: 16,
            timeout_delay: 10_000_000_000,
        }
    }
}

} // verus!
