//! Counters and estimates of one connection.

use vstd::prelude::*;

verus! {

/// A snapshot of a connection's counters.
#[derive(Clone, Copy, Debug)]
pub struct ConnectionMetrics {
    /// How many packets the connection has sent off.
    pub sent_packets: u64,
    /// How many bytes those packets held.
    pub sent_bytes: u64,
    /// The estimated round trip time in nanoseconds; `None` before the first sample.
    pub rtt: Option<u128>,
    /// How many unreliable messages were handed to the connection.
    pub unreliable_message_count: u64,
    /// How many reliable messages were handed to the connection.
    pub reliable_message_count: u64,
    /// How many messages are not yet delivered.
    pub messages_in_transit: usize,
}

impl Default for ConnectionMetrics {
    fn default() -> (metrics: Self)
        ensures
            metrics == (ConnectionMetrics {
                sent_packets: 0,
                sent_bytes: 0,
                rtt: None,
                unreliable_message_count: 0,
                reliable_message_count: 0,
                messages_in_transit: 0,
            }),
    {
        ConnectionMetrics {
            sent_packets: 0,
            sent_bytes: 0,
            rtt: None,
            unreliable_message_count: 0,
            reliable_message_count: 0,
            messages_in_transit: 0,
        }
    }
}

} // verus!
