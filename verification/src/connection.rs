//! The protocol engine of one connection: handshake, heartbeats, round trip
//! time, fragmentation and reassembly, acknowledgements, duplicate
//! suppression and the packing of blobs into packets.

use crate::message::{
    ReceiveMessage, ReceiveMessageView, SendMessage, SendMessageView, FRAGMENTATION_IDS,
    MAX_MESSAGE_SIZE,
};
use crate::metrics::ConnectionMetrics;
use crate::packer::{
    datagrams_view, pack_from, pack_messages, saturating, sends_view, wire_all, GrouperView,
    PacketGrouper,
};
use crate::packet::{
    blobs_view, handshake_wire, Acknowledgement, Blob, BlobView, Fragment, FragmentView, Handshake,
    Heartbeat, Packet,
};
use crate::{Address, Config, Delays, Error};
use std::collections::VecDeque;
use vstd::prelude::*;

verus! {

/// Whether `i` is the first position of `s` at which `p` holds, or the
/// length of `s` where `p` holds nowhere.
pub open spec fn is_first_match<T>(s: Seq<T>, p: spec_fn(T) -> bool, i: int) -> bool {
    &&& 0 <= i <= s.len()
    &&& forall|j: int| 0 <= j < i ==> !p(#[trigger] s[j])
    &&& i < s.len() ==> p(s[i])
}

/// The first position of `s` at which `p` holds, or the length of `s`.
pub open spec fn first_match<T>(s: Seq<T>, p: spec_fn(T) -> bool) -> int {
    choose|i: int| is_first_match(s, p, i)
}

/// There is one first position.
pub proof fn lemma_first_match<T>(s: Seq<T>, p: spec_fn(T) -> bool, i: int)
    requires
        is_first_match(s, p, i),
    ensures
        first_match(s, p) == i,
{
    let j = first_match(s, p);
    assert(is_first_match(s, p, j));
    if j < i {
        assert(!p(s[j]));
    } else if i < j {
        assert(!p(s[i]));
    }
}

/// The outgoing messages with the identifier `id`.
pub open spec fn sends_with(id: u16) -> spec_fn(SendMessageView) -> bool {
    |m: SendMessageView| m.fragmentation_id == id
}

/// The incoming messages with the identifier `id`.
pub open spec fn receives_with(id: u16) -> spec_fn(ReceiveMessageView) -> bool {
    |m: ReceiveMessageView| m.fragmentation_id == id
}

/// The incoming messages of which every byte has arrived.
pub open spec fn complete_messages() -> spec_fn(ReceiveMessageView) -> bool {
    |m: ReceiveMessageView| m.complete()
}

/// The incoming messages of which a byte is missing.
pub open spec fn incomplete_messages() -> spec_fn(ReceiveMessageView) -> bool {
    |m: ReceiveMessageView| !m.complete()
}

/// The incoming messages whose sender asked for acknowledgements.
pub open spec fn reliable_messages() -> spec_fn(ReceiveMessageView) -> bool {
    |m: ReceiveMessageView| m.reliable
}

/// The payload of an incoming message.
pub open spec fn payload_of() -> spec_fn(ReceiveMessageView) -> Seq<u8> {
    |m: ReceiveMessageView| m.data
}

/// The entry that remembers an incoming message handed to the caller at `time`.
pub open spec fn remembered_at(time: u128) -> spec_fn(ReceiveMessageView) -> (u128, u16) {
    |m: ReceiveMessageView| (time, m.fragmentation_id)
}

/// The outgoing messages of which a byte is undelivered.
pub open spec fn undelivered() -> spec_fn(SendMessageView) -> bool {
    |m: SendMessageView| !m.finished()
}

/// The blob that echoes a heartbeat's send time.
pub open spec fn response_blob() -> spec_fn(u64) -> BlobView {
    |send_time: u64| BlobView::HeartbeatResponse(send_time)
}

/// The blob of an acknowledgement.
pub open spec fn acknowledgement_blob() -> spec_fn(Acknowledgement) -> BlobView {
    |ack: Acknowledgement| BlobView::Acknowledgement(ack)
}

/// The incoming messages that are not given up at `time`: the reliable and
/// the complete ones, and those whose last fragment arrived less than
/// `drop_delay` ago.
pub open spec fn survives(time: u128, drop_delay: u128) -> spec_fn(ReceiveMessageView) -> bool {
    |m: ReceiveMessageView| m.reliable || m.complete() || m.last_received_time + drop_delay > time
}

/// The remembered identifiers that are not forgotten at `time`: those
/// entered no longer than `memory` ago.
pub open spec fn remembered(time: u128, memory: u128) -> spec_fn((u128, u16)) -> bool {
    |entry: (u128, u16)| entry.0 + memory >= time
}

/// The milliseconds of `time`, as a heartbeat carries them.
pub open spec fn heartbeat_millis(time: u128) -> u64 {
    ((time / 1_000_000) % 0x1_0000_0000_0000_0000) as u64
}

/// Every element of what a filter leaves of a list is an element of the list.
pub proof fn lemma_filter_member<T>(s: Seq<T>, p: spec_fn(T) -> bool, i: int) -> (k: int)
    requires
        0 <= i < s.filter(p).len(),
    ensures
        0 <= k < s.len(),
        s[k] == s.filter(p)[i],
    decreases s.len(),
{
    reveal(Seq::filter);
    let init = s.drop_last();
    let f = init.filter(p);
    if p(s.last()) && i == f.len() {
        s.len() - 1
    } else {
        lemma_filter_member(init, p, i)
    }
}

/// Whatever holds of any two elements of a list, the earlier first, holds
/// of any two elements of what a filter leaves of it.
pub proof fn lemma_filter_pairwise<T>(s: Seq<T>, p: spec_fn(T) -> bool, r: spec_fn(T, T) -> bool)
    requires
        forall|i: int, j: int| 0 <= i < j < s.len() ==> r(#[trigger] s[i], #[trigger] s[j]),
    ensures
        forall|i: int, j: int|
            0 <= i < j < s.filter(p).len() ==> r(#[trigger] s.filter(p)[i], #[trigger] s.filter(p)[j]),
    decreases s.len(),
{
    reveal(Seq::filter);
    if s.len() > 0 {
        let init = s.drop_last();
        assert forall|i: int, j: int| 0 <= i < j < init.len() implies r(
            #[trigger] init[i],
            #[trigger] init[j],
        ) by {
            assert(r(s[i], s[j]));
        }
        lemma_filter_pairwise(init, p, r);
        let f = init.filter(p);
        if p(s.last()) {
            let g = s.filter(p);
            assert(g == f.push(s.last()));
            assert forall|i: int, j: int| 0 <= i < j < g.len() implies r(
                #[trigger] g[i],
                #[trigger] g[j],
            ) by {
                if j < f.len() {
                    assert(r(f[i], f[j]));
                } else {
                    let k = lemma_filter_member(init, p, i);
                    assert(r(s[k], s[s.len() - 1]));
                }
            }
        }
    }
}

/// Two outgoing messages with different identifiers.
pub open spec fn distinct_sends() -> spec_fn(SendMessageView, SendMessageView) -> bool {
    |a: SendMessageView, b: SendMessageView| a.fragmentation_id != b.fragmentation_id
}

/// Two incoming messages with different identifiers.
pub open spec fn distinct_receives() -> spec_fn(ReceiveMessageView, ReceiveMessageView) -> bool {
    |a: ReceiveMessageView, b: ReceiveMessageView| a.fragmentation_id != b.fragmentation_id
}

/// The sum of the samples.
pub open spec fn sum(samples: Seq<u128>) -> nat
    decreases samples.len(),
{
    if samples.len() == 0 {
        0
    } else {
        sum(samples.drop_last()) + samples.last() as nat
    }
}

/// The arithmetic mean of the samples, rounded down; the sum counts as
/// `u128::MAX` where it is larger.
pub open spec fn mean(samples: Seq<u128>) -> u128 {
    let total = if sum(samples) > u128::MAX {
        u128::MAX as int
    } else {
        sum(samples) as int
    };
    (total / samples.len() as int) as u128
}

/// The newest `memory` of the samples.
pub open spec fn newest(samples: Seq<u128>, memory: usize) -> Seq<u128> {
    if samples.len() > memory {
        samples.subrange(samples.len() - memory, samples.len() as int)
    } else {
        samples
    }
}

/// The `k`th identifier tried for a new message, counting from `next`.
pub open spec fn probe(next: u16, k: int) -> u16 {
    ((next + k) % 0x8000) as u16
}

/// A connection as a mathematical value.
pub struct ConnectionView {
    /// The peer.
    pub addr: Address,
    /// `Some` while the handshake is pending, with the time of the last
    /// handshake sent, if any; `None` once the connection is established.
    pub last_handshake: Option<Option<u128>>,
    /// When the last heartbeat was sent.
    pub last_heartbeat: u128,
    /// The send times of the peer's heartbeats that are still to be echoed.
    pub heartbeat_responses: Seq<u64>,
    /// The newest round trip time samples, oldest first.
    pub rtt_samples: Seq<u128>,
    /// The mean of the samples; `None` without samples.
    pub cached_rtt: Option<u128>,
    /// When the last packet arrived from the peer.
    pub last_keep_alive: u128,
    /// Where the search for the next message's identifier starts.
    pub next_fragmentation_id: u16,
    /// The messages that are not yet delivered, oldest first.
    pub send_messages: Seq<SendMessageView>,
    /// The messages that are being put together.
    pub receive_messages: Seq<ReceiveMessageView>,
    /// The acknowledgements that are still to be sent.
    pub acknowledgements: Seq<Acknowledgement>,
    /// The identifiers of reliable messages that were handed to the caller,
    /// each with the time at which it was.
    pub reliable_blacklist: Seq<(u128, u16)>,
    /// Whether the connection is to be closed at the end of the next update.
    pub drop_connection: bool,
    /// Whether the caller has yet to be told that the connection stands.
    pub just_connected: bool,
    /// How many packets were sent off.
    pub sent_packets: u64,
    /// How many bytes those packets held.
    pub sent_bytes: u64,
    /// How many reliable messages the caller has sent.
    pub reliable_message_count: u64,
    /// How many unreliable messages the caller has sent.
    pub unreliable_message_count: u64,
}

impl ConnectionView {
    /// The messages are well-formed, and no two outgoing and no two incoming
    /// messages share an identifier.
    pub open spec fn wf(self) -> bool {
        &&& self.next_fragmentation_id < FRAGMENTATION_IDS
        &&& forall|i: int| 0 <= i < self.send_messages.len() ==> (#[trigger] self.send_messages[i]).wf()
        &&& forall|i: int|
            0 <= i < self.receive_messages.len() ==> (#[trigger] self.receive_messages[i]).wf()
        &&& forall|i: int, j: int|
            0 <= i < j < self.send_messages.len() ==> (#[trigger] self.send_messages[i]).fragmentation_id
                != (#[trigger] self.send_messages[j]).fragmentation_id
        &&& forall|i: int, j: int|
            0 <= i < j < self.receive_messages.len() ==> (
            #[trigger] self.receive_messages[i]).fragmentation_id != (
            #[trigger] self.receive_messages[j]).fragmentation_id
    }

    /// A connection to `addr` made at `time`. The party that opens it waits
    /// for the peer's heartbeat; the party that accepts it is established.
    pub open spec fn new(time: u128, addr: Address, opening_party: bool) -> ConnectionView {
        ConnectionView {
            addr,
            last_handshake: if opening_party {
                Some(None)
            } else {
                None
            },
            last_heartbeat: 0,
            heartbeat_responses: Seq::empty(),
            rtt_samples: Seq::empty(),
            cached_rtt: None,
            last_keep_alive: time,
            next_fragmentation_id: 0,
            send_messages: Seq::empty(),
            receive_messages: Seq::empty(),
            acknowledgements: Seq::empty(),
            reliable_blacklist: Seq::empty(),
            drop_connection: false,
            just_connected: !opening_party,
            sent_packets: 0,
            sent_bytes: 0,
            reliable_message_count: 0,
            unreliable_message_count: 0,
        }
    }

    /// Whether an outgoing message has the identifier `id`.
    pub open spec fn id_in_use(self, id: u16) -> bool {
        first_match(self.send_messages, sends_with(id)) < self.send_messages.len()
    }

    /// The first identifier from the `k`th probe on that no outgoing message
    /// has, if there is one among the probes up to the last.
    pub open spec fn first_free(self, k: int) -> Option<u16>
        decreases 0x8000 - k,
    {
        if k < 0 || k >= 0x8000 {
            None
        } else if !self.id_in_use(probe(self.next_fragmentation_id, k)) {
            Some(probe(self.next_fragmentation_id, k))
        } else {
            self.first_free(k + 1)
        }
    }

    /// Queues a message, under the first free identifier. Nothing changes
    /// and the flag is `false` where the payload is too long for the wire
    /// format or every identifier is in use.
    pub open spec fn send(self, reliable: bool, data: Seq<u8>) -> (ConnectionView, bool) {
        if data.len() > MAX_MESSAGE_SIZE {
            (self, false)
        } else {
            match self.first_free(0) {
                None => (self, false),
                Some(id) => (
                    ConnectionView {
                        next_fragmentation_id: probe(id, 1),
                        send_messages: self.send_messages.push(
                            SendMessageView {
                                data,
                                reliable: if reliable {
                                    Some(None)
                                } else {
                                    None
                                },
                                fragmentation_id: id,
                                delivered: Seq::empty(),
                            },
                        ),
                        reliable_message_count: if reliable {
                            saturating(self.reliable_message_count, 1)
                        } else {
                            self.reliable_message_count
                        },
                        unreliable_message_count: if reliable {
                            self.unreliable_message_count
                        } else {
                            saturating(self.unreliable_message_count, 1)
                        },
                        ..self
                    },
                    true,
                ),
            }
        }
    }

    /// Whether a reliable message with the identifier `id` was handed to the
    /// caller and is still remembered.
    pub open spec fn is_blacklisted(self, id: u16) -> bool {
        exists|i: int|
            0 <= i < self.reliable_blacklist.len() && (#[trigger] self.reliable_blacklist[i]).1 == id
    }

    /// What a fragment does to the connection. The flag is `false`, and
    /// nothing changes, where the fragment contradicts the message it belongs
    /// to or lies outside the size it announces.
    ///
    /// The fragment of a reliable message whose identifier is remembered is
    /// dropped; else it goes to the message with its identifier, or starts
    /// one. An acknowledgement is queued for every fragment of a reliable
    /// message.
    pub open spec fn receive_fragment(self, time: u128, fragment: FragmentView) -> (
        ConnectionView,
        bool,
    ) {
        let ignored = fragment.send_ack && self.is_blacklisted(fragment.fragmentation_id);
        let index = first_match(self.receive_messages, receives_with(fragment.fragmentation_id));
        let known = index < self.receive_messages.len();
        if !ignored && known && !self.receive_messages[index].accepts(fragment) {
            (self, false)
        } else if !ignored && !known && fragment.start + fragment.data.len() > fragment.total_size {
            (self, false)
        } else {
            (
                ConnectionView {
                    receive_messages: if ignored {
                        self.receive_messages
                    } else if known {
                        self.receive_messages.update(
                            index,
                            self.receive_messages[index].add(time, fragment),
                        )
                    } else {
                        self.receive_messages.push(
                            ReceiveMessageView::blank(fragment).add(time, fragment),
                        )
                    },
                    acknowledgements: if fragment.send_ack {
                        self.acknowledgements.push(
                            Acknowledgement {
                                fragmentation_id: fragment.fragmentation_id,
                                start: fragment.start,
                                len: fragment.data.len() as u16,
                            },
                        )
                    } else {
                        self.acknowledgements
                    },
                    ..self
                },
                true,
            )
        }
    }

    /// What the peer's heartbeat does: it completes a pending handshake, and
    /// its send time is queued to be echoed.
    pub open spec fn receive_heartbeat(self, send_time: u64) -> ConnectionView {
        ConnectionView {
            just_connected: self.just_connected || self.last_handshake.is_some(),
            last_handshake: None,
            heartbeat_responses: self.heartbeat_responses.push(send_time),
            ..self
        }
    }

    /// What the echo of an own heartbeat does: the time since it was sent is
    /// a new sample, the newest `rtt_memory` samples are kept, and the
    /// estimate is their mean.
    pub open spec fn receive_heartbeat_response(
        self,
        time: u128,
        rtt_memory: usize,
        send_time: u64,
    ) -> ConnectionView {
        let sent = send_time * 1_000_000;
        let sample: u128 = if time >= sent {
            (time - sent) as u128
        } else {
            0
        };
        let samples = newest(self.rtt_samples.push(sample), rtt_memory);
        ConnectionView {
            rtt_samples: samples,
            cached_rtt: if samples.len() == 0 {
                None
            } else {
                Some(mean(samples))
            },
            ..self
        }
    }

    /// What an acknowledgement does: the outgoing message with its
    /// identifier, if there is one, records the range as delivered. The flag
    /// is `false`, and nothing changes, where the range reaches behind the
    /// message.
    pub open spec fn receive_acknowledgement(self, ack: Acknowledgement) -> (ConnectionView, bool) {
        let index = first_match(self.send_messages, sends_with(ack.fragmentation_id));
        if index >= self.send_messages.len() {
            (self, true)
        } else if ack.start + ack.len > self.send_messages[index].data.len() {
            (self, false)
        } else {
            (
                ConnectionView {
                    send_messages: self.send_messages.update(
                        index,
                        self.send_messages[index].deliver(ack.start as int, ack.start + ack.len),
                    ),
                    ..self
                },
                true,
            )
        }
    }

    /// What one blob of a packet does that arrived at `time`.
    pub open spec fn receive_blob(self, time: u128, rtt_memory: usize, blob: BlobView) -> (
        ConnectionView,
        bool,
    ) {
        match blob {
            BlobView::Fragment(fragment) => self.receive_fragment(time, fragment),
            BlobView::Heartbeat(send_time) => (self.receive_heartbeat(send_time), true),
            BlobView::HeartbeatResponse(send_time) => (
                self.receive_heartbeat_response(time, rtt_memory, send_time),
                true,
            ),
            BlobView::Acknowledgement(ack) => self.receive_acknowledgement(ack),
            BlobView::Disconnect => (ConnectionView { drop_connection: true, ..self }, true),
        }
    }

    /// What the blobs of a packet from the `i`th on do, one after the other,
    /// up to the first that is refused.
    pub open spec fn receive_blobs(
        self,
        time: u128,
        rtt_memory: usize,
        blobs: Seq<BlobView>,
        i: int,
    ) -> (ConnectionView, bool)
        decreases blobs.len() - i,
    {
        if i < 0 || i >= blobs.len() {
            (self, true)
        } else {
            let (next, ok) = self.receive_blob(time, rtt_memory, blobs[i]);
            if ok {
                next.receive_blobs(time, rtt_memory, blobs, i + 1)
            } else {
                (next, false)
            }
        }
    }

    /// What a packet does that arrived at `time`: the connection is alive,
    /// and the blobs take effect in order. The flag is `false` where a blob
    /// was refused; the blobs in front of it have taken effect.
    pub open spec fn receive(self, time: u128, rtt_memory: usize, blobs: Seq<BlobView>) -> (
        ConnectionView,
        bool,
    ) {
        (ConnectionView { last_keep_alive: time, ..self }).receive_blobs(time, rtt_memory, blobs, 0)
    }

    /// What handing the complete messages to the caller at `time` does: they
    /// leave the connection in order, and the identifiers of the reliable
    /// ones among them are remembered with `time`. Beside the connection
    /// stand the payloads that the caller is given.
    pub open spec fn flush(self, time: u128) -> (ConnectionView, Seq<Seq<u8>>) {
        let done = self.receive_messages.filter(complete_messages());
        (
            ConnectionView {
                receive_messages: self.receive_messages.filter(incomplete_messages()),
                reliable_blacklist: self.reliable_blacklist + done.filter(
                    reliable_messages(),
                ).map_values(remembered_at(time)),
                ..self
            },
            done.map_values(payload_of()),
        )
    }

    /// Whether the peer has been silent for longer than `timeout_delay`.
    pub open spec fn timed_out(self, time: u128, timeout_delay: u128) -> bool {
        self.last_keep_alive + timeout_delay < time
    }

    /// Whether a pending connection has to send a handshake: it has sent
    /// none, or the last one at least `interval` ago.
    pub open spec fn handshake_due(self, time: u128, interval: u128) -> bool {
        match self.last_handshake {
            Some(None) => true,
            Some(Some(last)) => last + interval <= time,
            None => false,
        }
    }

    /// Whether the last heartbeat was sent at least `interval` ago.
    pub open spec fn heartbeat_due(self, time: u128, interval: u128) -> bool {
        self.last_heartbeat + interval <= time
    }

    /// The connection with the counters of the packer.
    pub open spec fn with_counters(self, g: GrouperView) -> ConnectionView {
        ConnectionView { sent_packets: g.sent_packets, sent_bytes: g.sent_bytes, ..self }
    }

    /// Packs a wave of fragments of every message that is due. Where all
    /// waves went through, the messages that are delivered leave.
    pub open spec fn pack_fragments(self, g: GrouperView, time: u128, resend_delay: Option<u128>) -> (
        ConnectionView,
        GrouperView,
        bool,
    ) {
        let (next, messages, ok) = pack_from(g, self.send_messages, time, resend_delay, 0);
        (
            ConnectionView {
                send_messages: if ok {
                    messages.filter(undelivered())
                } else {
                    messages
                },
                ..self
            },
            next,
            ok,
        )
    }

    /// Packs a heartbeat with the milliseconds of `time`, where one is due.
    pub open spec fn pack_heartbeat(self, g: GrouperView, time: u128, interval: u128) -> (
        ConnectionView,
        GrouperView,
        bool,
    ) {
        if self.heartbeat_due(time, interval) {
            let (next, ok) = g.add(BlobView::Heartbeat(heartbeat_millis(time)));
            (ConnectionView { last_heartbeat: time, ..self }, next, ok)
        } else {
            (self, g, true)
        }
    }

    /// Packs the echoes that are owed to the peer. None stays queued.
    pub open spec fn pack_responses(self, g: GrouperView) -> (ConnectionView, GrouperView, bool) {
        let (next, ok) = g.add_all(self.heartbeat_responses.map_values(response_blob()), 0);
        (ConnectionView { heartbeat_responses: Seq::empty(), ..self }, next, ok)
    }

    /// Packs the acknowledgements that are owed to the peer. None stays queued.
    pub open spec fn pack_acknowledgements(self, g: GrouperView) -> (
        ConnectionView,
        GrouperView,
        bool,
    ) {
        let (next, ok) = g.add_all(self.acknowledgements.map_values(acknowledgement_blob()), 0);
        (ConnectionView { acknowledgements: Seq::empty(), ..self }, next, ok)
    }

    /// Packs a disconnect blob where the connection is to be closed.
    pub open spec fn pack_disconnect(self, g: GrouperView) -> (GrouperView, bool) {
        if self.drop_connection {
            g.add(BlobView::Disconnect)
        } else {
            (g, true)
        }
    }

    /// Where the round trip time is known: gives up the incomplete
    /// unreliable messages that have waited too long, and forgets the
    /// identifiers that were remembered long enough.
    pub open spec fn prune(self, time: u128, delays: Option<Delays>) -> ConnectionView {
        match delays {
            None => self,
            Some(d) => ConnectionView {
                receive_messages: self.receive_messages.filter(survives(time, d.unreliable_drop)),
                reliable_blacklist: self.reliable_blacklist.filter(
                    remembered(time, d.blacklist_memory),
                ),
                ..self
            },
        }
    }

    /// A tick of a connection whose handshake is pending: a handshake is
    /// sent where one is due, and nothing else. Beside the connection stand
    /// the datagrams to send.
    pub open spec fn update_pending(self, time: u128, config: Config) -> (
        ConnectionView,
        Seq<Seq<u8>>,
    ) {
        if self.handshake_due(time, config.handshake_interval) {
            (
                ConnectionView {
                    last_handshake: Some(Some(time)),
                    sent_packets: saturating(self.sent_packets, 1),
                    sent_bytes: saturating(self.sent_bytes, 16),
                    ..self
                },
                seq![handshake_wire(config.protocol_id)],
            )
        } else {
            (self, Seq::empty())
        }
    }

    /// A tick of an established connection. The blobs are packed in this
    /// order: fragments, heartbeat, heartbeat responses, acknowledgements,
    /// disconnect. Where a blob fits no empty packet the tick ends there:
    /// the flag is `false`, the packets that were sent off stand, and the
    /// packet that was being filled is given up. Else the last packet is
    /// sent off and counted as well, and the connection is pruned. Beside the connection
    /// stand the packets to send.
    pub open spec fn update_established(self, time: u128, config: Config, delays: Option<Delays>) -> (
        ConnectionView,
        Seq<Seq<BlobView>>,
        bool,
    ) {
        let g0 = GrouperView::new(config.mtu, self.sent_packets, self.sent_bytes);
        let resend_delay = match delays {
            Some(d) => Some(d.resend),
            None => None,
        };
        let (c1, g1, ok1) = self.pack_fragments(g0, time, resend_delay);
        let (c2, g2, ok2) = c1.pack_heartbeat(g1, time, config.heartbeat_interval);
        let (c3, g3, ok3) = c2.pack_responses(g2);
        let (c4, g4, ok4) = c3.pack_acknowledgements(g3);
        let (g5, ok5) = c4.pack_disconnect(g4);
        if !ok1 {
            (c1.with_counters(g1), g1.sent, false)
        } else if !ok2 {
            (c2.with_counters(g2), g2.sent, false)
        } else if !ok3 {
            (c3.with_counters(g3), g3.sent, false)
        } else if !ok4 {
            (c4.with_counters(g4), g4.sent, false)
        } else if !ok5 {
            (c4.with_counters(g5), g5.sent, false)
        } else {
            let g6 = g5.finish();
            (c4.with_counters(g6).prune(time, delays), g6.sent, true)
        }
    }

    /// The waiting times that count: those given, while there is a round
    /// trip time estimate that they can follow from, and none without one.
    pub open spec fn known(self, delays: Option<Delays>) -> Option<Delays> {
        if self.cached_rtt.is_some() {
            delays
        } else {
            None
        }
    }

    /// A tick at `time`. A connection whose peer has been silent for too
    /// long is marked to be closed. While the handshake is pending only
    /// handshakes are sent. The waiting times count only while there is a
    /// round trip time estimate. Beside the connection stand the datagrams to
    /// send, in order, and a flag, which is `false` where the MTU is too
    /// small for a blob that had to be sent.
    pub open spec fn update(self, time: u128, config: Config, delays: Option<Delays>) -> (
        ConnectionView,
        Seq<Seq<u8>>,
        bool,
    ) {
        let c = ConnectionView {
            drop_connection: self.drop_connection || self.timed_out(time, config.timeout_delay),
            ..self
        };
        if c.last_handshake.is_some() {
            let (next, datagrams) = c.update_pending(time, config);
            (next, datagrams, true)
        } else {
            let (next, packets, ok) = c.update_established(time, config, c.known(delays));
            (next, wire_all(packets), ok)
        }
    }
}

/// What a tick hands to the caller.
pub struct Tick {
    /// The datagrams to send to the peer, in order.
    pub datagrams: Vec<Vec<u8>>,
    /// The error that ended the tick early, if one did.
    pub error: Option<Error>,
}

/// The state of the connection with one peer.
pub struct Connection {
    addr: Address,
    last_handshake: Option<Option<u128>>,
    last_heartbeat: u128,
    heartbeat_responses: Vec<Heartbeat>,
    rtt_samples: VecDeque<u128>,
    cached_rtt: Option<u128>,
    last_keep_alive: u128,
    next_fragmentation_id: u16,
    send_messages: Vec<SendMessage>,
    receive_messages: Vec<ReceiveMessage>,
    acknowledgements: Vec<Acknowledgement>,
    reliable_blacklist: Vec<(u128, u16)>,
    drop_connection: bool,
    just_connected: bool,
    sent_packets: u64,
    sent_bytes: u64,
    reliable_message_count: u64,
    unreliable_message_count: u64,
}

/// The mathematical values of a list of incoming messages.
pub open spec fn receives_view(messages: Seq<ReceiveMessage>) -> Seq<ReceiveMessageView> {
    Seq::new(messages.len(), |i: int| messages[i]@)
}

/// The send times of a list of heartbeats.
pub open spec fn heartbeats_view(heartbeats: Seq<Heartbeat>) -> Seq<u64> {
    Seq::new(heartbeats.len(), |i: int| heartbeats[i]@)
}

impl View for Connection {
    type V = ConnectionView;

    closed spec fn view(&self) -> ConnectionView {
        ConnectionView {
            addr: self.addr,
            last_handshake: self.last_handshake,
            last_heartbeat: self.last_heartbeat,
            heartbeat_responses: heartbeats_view(self.heartbeat_responses@),
            rtt_samples: self.rtt_samples@,
            cached_rtt: self.cached_rtt,
            last_keep_alive: self.last_keep_alive,
            next_fragmentation_id: self.next_fragmentation_id,
            send_messages: sends_view(self.send_messages@),
            receive_messages: receives_view(self.receive_messages@),
            acknowledgements: self.acknowledgements@,
            reliable_blacklist: self.reliable_blacklist@,
            drop_connection: self.drop_connection,
            just_connected: self.just_connected,
            sent_packets: self.sent_packets,
            sent_bytes: self.sent_bytes,
            reliable_message_count: self.reliable_message_count,
            unreliable_message_count: self.unreliable_message_count,
        }
    }
}

impl Connection {
    /// The view is well-formed, and so is every message.
    pub closed spec fn wf(&self) -> bool {
        &&& self@.wf()
        &&& forall|i: int| 0 <= i < self.send_messages.len() ==> (#[trigger] self.send_messages[i]).wf()
        &&& forall|i: int|
            0 <= i < self.receive_messages.len() ==> (#[trigger] self.receive_messages[i]).wf()
    }

    /// A well-formed connection has a well-formed view.
    pub proof fn lemma_wf(&self)
        requires
            self.wf(),
        ensures
            self@.wf(),
    {
    }

    /// A connection to `addr` made at `time`. `opening_party` says whether
    /// this side opens the connection, and so has to wait for the peer before
    /// the connection stands.
    pub fn new(time: u128, addr: Address, opening_party: bool) -> (connection: Self)
        ensures
            connection.wf(),
            connection@ == ConnectionView::new(time, addr, opening_party),
    {
        let connection = Connection {
            addr,
            last_handshake: if opening_party {
                Some(None)
            } else {
                None
            },
            last_heartbeat: 0,
            heartbeat_responses: Vec::new(),
            rtt_samples: VecDeque::new(),
            cached_rtt: None,
            last_keep_alive: time,
            next_fragmentation_id: 0,
            send_messages: Vec::new(),
            receive_messages: Vec::new(),
            acknowledgements: Vec::new(),
            reliable_blacklist: Vec::new(),
            drop_connection: false,
            just_connected: !opening_party,
            sent_packets: 0,
            sent_bytes: 0,
            reliable_message_count: 0,
            unreliable_message_count: 0,
        };
        proof {
            let v = connection@;
            let w = ConnectionView::new(time, addr, opening_party);
            assert(v.heartbeat_responses =~= w.heartbeat_responses);
            assert(v.send_messages =~= w.send_messages);
            assert(v.receive_messages =~= w.receive_messages);
            assert(v.rtt_samples =~= w.rtt_samples);
            assert(v.acknowledgements =~= w.acknowledgements);
            assert(v.reliable_blacklist =~= w.reliable_blacklist);
        }
        connection
    }

    /// The peer's address.
    pub fn address(&self) -> (addr: Address)
        ensures
            addr == self@.addr,
    {
        self.addr
    }

    /// The position of the outgoing message with the identifier `id`, or the
    /// number of outgoing messages where there is none.
    fn send_index(&self, id: u16) -> (index: usize)
        ensures
            index == first_match(self@.send_messages, sends_with(id)),
            is_first_match(self@.send_messages, sends_with(id), index as int),
            index <= self.send_messages.len(),
    {
        let mut index: usize = 0;
        while index < self.send_messages.len()
            invariant
                index <= self.send_messages.len(),
                forall|j: int|
                    0 <= j < index ==> (#[trigger] self.send_messages[j])@.fragmentation_id != id,
            decreases self.send_messages.len() - index,
        {
            if self.send_messages[index].fragmentation_id() == id {
                proof {
                    let s = self@.send_messages;
                    assert forall|j: int| 0 <= j < index implies !sends_with(id)(
                        #[trigger] s[j],
                    ) by {
                        assert(s[j] == self.send_messages[j]@);
                    }
                    assert(s[index as int] == self.send_messages[index as int]@);
                    lemma_first_match(s, sends_with(id), index as int);
                }
                return index;
            }
            index += 1;
        }
        proof {
            let s = self@.send_messages;
            assert forall|j: int| 0 <= j < index implies !sends_with(id)(#[trigger] s[j]) by {
                assert(s[j] == self.send_messages[j]@);
            }
            lemma_first_match(s, sends_with(id), index as int);
        }
        index
    }

    /// The position of the incoming message with the identifier `id`, or the
    /// number of incoming messages where there is none.
    fn receive_index(&self, id: u16) -> (index: usize)
        ensures
            index == first_match(self@.receive_messages, receives_with(id)),
            is_first_match(self@.receive_messages, receives_with(id), index as int),
            index <= self.receive_messages.len(),
    {
        let mut index: usize = 0;
        while index < self.receive_messages.len()
            invariant
                index <= self.receive_messages.len(),
                forall|j: int|
                    0 <= j < index ==> (#[trigger] self.receive_messages[j])@.fragmentation_id != id,
            decreases self.receive_messages.len() - index,
        {
            if self.receive_messages[index].fragmentation_id() == id {
                proof {
                    let s = self@.receive_messages;
                    assert forall|j: int| 0 <= j < index implies !receives_with(id)(
                        #[trigger] s[j],
                    ) by {
                        assert(s[j] == self.receive_messages[j]@);
                    }
                    assert(s[index as int] == self.receive_messages[index as int]@);
                    lemma_first_match(s, receives_with(id), index as int);
                }
                return index;
            }
            index += 1;
        }
        proof {
            let s = self@.receive_messages;
            assert forall|j: int| 0 <= j < index implies !receives_with(id)(#[trigger] s[j]) by {
                assert(s[j] == self.receive_messages[j]@);
            }
            lemma_first_match(s, receives_with(id), index as int);
        }
        index
    }

    /// The first identifier that no outgoing message has, searching from
    /// where the last search ended.
    fn free_id(&self) -> (id: Option<u16>)
        requires
            self.wf(),
        ensures
            id == self@.first_free(0),
            id.is_some() ==> id.unwrap() < FRAGMENTATION_IDS && is_first_match(
                self@.send_messages,
                sends_with(id.unwrap()),
                self@.send_messages.len() as int,
            ),
    {
        let mut k: u16 = 0;
        while k < FRAGMENTATION_IDS
            invariant
                self.wf(),
                k <= FRAGMENTATION_IDS,
                self@.first_free(k as int) == self@.first_free(0),
            decreases FRAGMENTATION_IDS - k,
        {
            let candidate: u16 = ((self.next_fragmentation_id as u32 + k as u32) % 0x8000) as u16;
            assert(candidate == probe(self@.next_fragmentation_id, k as int));
            if self.send_index(candidate) >= self.send_messages.len() {
                return Some(candidate);
            }
            k += 1;
        }
        None
    }

    /// Queues a message for the peer, under the first free identifier.
    /// Fails, and changes nothing, where the payload is longer than the wire
    /// format can describe or every identifier is in use.
    pub fn send(&mut self, reliable: bool, data: Vec<u8>) -> (r: Result<(), ()>)
        requires
            old(self).wf(),
        ensures
            final(self).wf(),
            (final(self)@, r.is_ok()) == old(self)@.send(reliable, data@),
            final(self)@.addr == old(self)@.addr,
    {
        if data.len() > MAX_MESSAGE_SIZE {
            return Err(());
        }
        let id = match self.free_id() {
            Some(id) => id,
            None => { return Err(()); },
        };
        let ghost before = self.send_messages@;
        let message = SendMessage::new(reliable, id, data);
        self.next_fragmentation_id = (id + 1) % 0x8000;
        self.send_messages.push(message);
        if reliable {
            self.reliable_message_count = self.reliable_message_count.saturating_add(1);
        } else {
            self.unreliable_message_count = self.unreliable_message_count.saturating_add(1);
        }
        proof {
            let s = old(self)@.send_messages;
            assert(sends_view(before) == s);
            assert(self@.send_messages =~= s.push(message@));
            assert forall|i: int| 0 <= i < s.len() implies (#[trigger] s[i]).fragmentation_id
                != id by {
                assert(!sends_with(id)(s[i]));
            }
            assert forall|i: int| 0 <= i < self.send_messages.len() implies (
            #[trigger] self.send_messages[i]).wf() by {
                if i < before.len() {
                    assert(self.send_messages[i] == before[i]);
                }
            }
            assert(self@.heartbeat_responses == old(self)@.heartbeat_responses);
            assert(self@.receive_messages == old(self)@.receive_messages);
            assert forall|i: int| 0 <= i < self@.send_messages.len() implies (
            #[trigger] self@.send_messages[i]).wf() by {
                if i < s.len() {
                    assert(s[i].wf());
                }
            }
        }
        Ok(())
    }

    /// The estimated round trip time: the mean of the newest samples that
    /// the heartbeats have given. `None` before the first sample. It includes
    /// the time that the peer takes to answer.
    pub fn round_trip_time(&self) -> (rtt: Option<u128>)
        ensures
            rtt == self@.cached_rtt,
    {
        self.cached_rtt
    }

    /// How many messages are not yet delivered.
    pub fn in_transit(&self) -> (n: usize)
        ensures
            n == self@.send_messages.len(),
    {
        self.send_messages.len()
    }

    /// Marks the connection to be closed at the end of the next update.
    pub fn drop(&mut self)
        ensures
            final(self)@ == (ConnectionView { drop_connection: true, ..old(self)@ }),
            old(self).wf() ==> final(self).wf(),
    {
        self.drop_connection = true;
    }

    /// Whether the connection is to be closed.
    pub fn should_drop(&self) -> (b: bool)
        ensures
            b == self@.drop_connection,
    {
        self.drop_connection
    }

    /// Whether the caller has yet to be told that the connection stands.
    /// Asking clears the flag.
    pub fn just_connected(&mut self) -> (b: bool)
        ensures
            b == old(self)@.just_connected,
            final(self)@ == (ConnectionView { just_connected: false, ..old(self)@ }),
            old(self).wf() ==> final(self).wf(),
    {
        if self.just_connected {
            self.just_connected = false;
            true
        } else {
            false
        }
    }

    /// The connection's counters.
    pub fn metrics(&self) -> (metrics: ConnectionMetrics)
        ensures
            metrics == (ConnectionMetrics {
                sent_packets: self@.sent_packets,
                sent_bytes: self@.sent_bytes,
                rtt: self@.cached_rtt,
                unreliable_message_count: self@.unreliable_message_count,
                reliable_message_count: self@.reliable_message_count,
                messages_in_transit: self@.send_messages.len() as usize,
            }),
    {
        ConnectionMetrics {
            sent_packets: self.sent_packets,
            sent_bytes: self.sent_bytes,
            rtt: self.cached_rtt,
            unreliable_message_count: self.unreliable_message_count,
            reliable_message_count: self.reliable_message_count,
            messages_in_transit: self.send_messages.len(),
        }
    }

    /// Whether the reliable message `id` is remembered.
    fn is_blacklisted(&self, id: u16) -> (b: bool)
        ensures
            b == self@.is_blacklisted(id),
    {
        let mut i: usize = 0;
        while i < self.reliable_blacklist.len()
            invariant
                i <= self.reliable_blacklist.len(),
                forall|j: int| 0 <= j < i ==> (#[trigger] self.reliable_blacklist[j]).1 != id,
            decreases self.reliable_blacklist.len() - i,
        {
            if self.reliable_blacklist[i].1 == id {
                assert(self@.reliable_blacklist[i as int].1 == id);
                return true;
            }
            i += 1;
        }
        false
    }

    /// Takes a fragment in.
    fn receive_fragment(&mut self, time: u128, fragment: Fragment) -> (r: Result<(), ()>)
        requires
            old(self).wf(),
            fragment@.sized(),
        ensures
            final(self).wf(),
            (final(self)@, r.is_ok()) == old(self)@.receive_fragment(time, fragment@),
    {
        let ack = fragment.acknowledgement();
        let ghost before = self.receive_messages@;
        let ghost views = self@.receive_messages;
        let ghost f = fragment@;
        let id = fragment.fragmentation_id;
        if !(fragment.send_ack && self.is_blacklisted(id)) {
            let index = self.receive_index(id);
            if index < self.receive_messages.len() {
                assert(views[index as int] == before[index as int]@);
                let r = self.receive_messages[index].add_fragment(time, fragment);
                proof {
                    assert(self.receive_messages@ == before.update(
                        index as int,
                        self.receive_messages[index as int],
                    ));
                    assert forall|i: int| 0 <= i < self.receive_messages.len() implies (
                    #[trigger] self.receive_messages[i]).wf() by {
                        if i != index {
                            assert(self.receive_messages[i] == before[i]);
                        }
                    }
                    if r.is_err() {
                        assert(self@.receive_messages =~= views);
                    } else {
                        let updated = views.update(index as int, views[index as int].add(time, f));
                        assert(self@.receive_messages =~= updated);
                        assert forall|i: int| 0 <= i < updated.len() implies (
                        #[trigger] updated[i]).wf() by {
                            if i != index {
                                assert(views[i].wf());
                            } else {
                                self.receive_messages[index as int].lemma_wf();
                            }
                        }
                        assert forall|i: int, j: int| 0 <= i < j < updated.len() implies (
                        #[trigger] updated[i]).fragmentation_id != (
                        #[trigger] updated[j]).fragmentation_id by {
                            assert(views[i].fragmentation_id != views[j].fragmentation_id);
                        }
                    }
                }
                if r.is_err() {
                    return Err(());
                }
            } else {
                let message = match ReceiveMessage::new(time, fragment) {
                    Ok(message) => message,
                    Err(()) => { return Err(()); },
                };
                self.receive_messages.push(message);
                proof {
                    let pushed = views.push(message@);
                    assert(self@.receive_messages =~= pushed);
                    assert forall|i: int| 0 <= i < self.receive_messages.len() implies (
                    #[trigger] self.receive_messages[i]).wf() by {
                        if i < before.len() {
                            assert(self.receive_messages[i] == before[i]);
                        }
                    }
                    assert forall|i: int| 0 <= i < pushed.len() implies (#[trigger] pushed[i]).wf() by {
                        if i < views.len() {
                            assert(views[i].wf());
                        } else {
                            message.lemma_wf();
                        }
                    }
                    assert forall|i: int, j: int| 0 <= i < j < pushed.len() implies (
                    #[trigger] pushed[i]).fragmentation_id != (
                    #[trigger] pushed[j]).fragmentation_id by {
                        if j < views.len() {
                            assert(views[i].fragmentation_id != views[j].fragmentation_id);
                        } else {
                            assert(!receives_with(id)(views[i]));
                        }
                    }
                }
            }
        }
        if let Some(ack) = ack {
            self.acknowledgements.push(ack);
        }
        Ok(())
    }

    /// Takes the peer's heartbeat in.
    fn receive_heartbeat(&mut self, heartbeat: Heartbeat)
        requires
            old(self).wf(),
        ensures
            final(self).wf(),
            final(self)@ == old(self)@.receive_heartbeat(heartbeat@),
    {
        if self.last_handshake.is_some() {
            self.just_connected = true;
            self.last_handshake = None;
        }
        self.heartbeat_responses.push(heartbeat);
        assert(self@.heartbeat_responses =~= old(self)@.heartbeat_responses.push(heartbeat@));
    }

    /// Takes the echo of an own heartbeat in.
    fn receive_heartbeat_response(&mut self, time: u128, rtt_memory: usize, heartbeat: Heartbeat)
        requires
            old(self).wf(),
        ensures
            final(self).wf(),
            final(self)@ == old(self)@.receive_heartbeat_response(time, rtt_memory, heartbeat@),
    {
        let sample = time.saturating_sub(heartbeat.time());
        push_sample(&mut self.rtt_samples, sample, rtt_memory);
        self.cached_rtt = mean_of(&self.rtt_samples);
        proof {
            assert(self@.send_messages == old(self)@.send_messages);
            assert(self@.receive_messages == old(self)@.receive_messages);
        }
    }

    /// Takes an acknowledgement in.
    fn receive_acknowledgement(&mut self, ack: Acknowledgement) -> (r: Result<(), ()>)
        requires
            old(self).wf(),
        ensures
            final(self).wf(),
            (final(self)@, r.is_ok()) == old(self)@.receive_acknowledgement(ack),
    {
        let ghost before = self.send_messages@;
        let ghost views = self@.send_messages;
        let index = self.send_index(ack.fragmentation_id);
        if index >= self.send_messages.len() {
            return Ok(());
        }
        assert(views[index as int] == before[index as int]@);
        assert(views[index as int].wf());
        let end: u64 = ack.start as u64 + ack.len as u64;
        let size = self.send_messages[index].len();
        if end > size as u64 {
            return Err(());
        }
        let r = self.send_messages[index].set_delivered(ack.start as usize..end as usize);
        proof {
            assert(self.send_messages@ == before.update(index as int, self.send_messages[index as int]));
            let updated = views.update(
                index as int,
                views[index as int].deliver(ack.start as int, ack.start + ack.len),
            );
            assert(self@.send_messages =~= updated);
            assert forall|i: int| 0 <= i < self.send_messages.len() implies (
            #[trigger] self.send_messages[i]).wf() by {
                if i != index {
                    assert(self.send_messages[i] == before[i]);
                }
            }
            assert forall|i: int| 0 <= i < updated.len() implies (#[trigger] updated[i]).wf() by {
                if i != index {
                    assert(views[i].wf());
                } else {
                    self.send_messages[index as int].lemma_wf();
                }
            }
            assert forall|i: int, j: int| 0 <= i < j < updated.len() implies (
            #[trigger] updated[i]).fragmentation_id != (#[trigger] updated[j]).fragmentation_id by {
                assert(views[i].fragmentation_id != views[j].fragmentation_id);
            }
        }
        Ok(())
    }

    /// Takes one blob in.
    fn receive_blob(&mut self, time: u128, rtt_memory: usize, blob: Blob) -> (r: Result<(), ()>)
        requires
            old(self).wf(),
            blob@.sized(),
        ensures
            final(self).wf(),
            (final(self)@, r.is_ok()) == old(self)@.receive_blob(time, rtt_memory, blob@),
            final(self)@.addr == old(self)@.addr,
    {
        match blob {
            Blob::Fragment(fragment) => self.receive_fragment(time, fragment),
            Blob::Heartbeat(heartbeat) => {
                self.receive_heartbeat(heartbeat);
                Ok(())
            },
            Blob::HeartbeatResponse(heartbeat) => {
                self.receive_heartbeat_response(time, rtt_memory, heartbeat);
                Ok(())
            },
            Blob::Acknowledgement(ack) => self.receive_acknowledgement(ack),
            Blob::Disconnect => {
                self.drop_connection = true;
                Ok(())
            },
        }
    }

    /// Takes in a packet that arrived at `time`: the connection is alive,
    /// and the blobs take effect in order. Fails at the first blob that
    /// contradicts the connection's state; the blobs in front of it have
    /// taken effect.
    pub fn receive(&mut self, time: u128, config: &Config, packet: Packet) -> (r: Result<(), ()>)
        requires
            old(self).wf(),
            packet.wf(),
        ensures
            final(self).wf(),
            (final(self)@, r.is_ok()) == old(self)@.receive(time, config.rtt_memory, packet@),
            final(self)@.addr == old(self)@.addr,
    {
        self.last_keep_alive = time;
        let ghost start = self@;
        let ghost blobs = packet@;
        proof {
            assert(start == (ConnectionView { last_keep_alive: time, ..old(self)@ }));
            assert(start.send_messages == old(self)@.send_messages);
            assert(start.receive_messages == old(self)@.receive_messages);
            assert(start.wf());
        }
        let rtt_memory = config.rtt_memory;
        let list = packet.into_iter();
        for blob in it: list.into_iter()
            invariant
                self.wf(),
                it.seq() == list@,
                blobs == blobs_view(list@),
                forall|i: int| 0 <= i < blobs.len() ==> (#[trigger] blobs[i]).sized(),
                rtt_memory == config.rtt_memory,
                blobs == packet@,
                start == (ConnectionView { last_keep_alive: time, ..old(self)@ }),
                self@.addr == old(self)@.addr,
                self@.receive_blobs(time, rtt_memory, blobs, it.index() as int)
                    == start.receive_blobs(time, rtt_memory, blobs, 0),
        {
            let ghost i = it.index() as int;
            let ghost prev = self@;
            assert(blobs[i] == blob@);
            assert(blobs[i].sized());
            let r = self.receive_blob(time, rtt_memory, blob);
            proof {
                let (next, ok) = prev.receive_blob(time, rtt_memory, blobs[i]);
                assert(next == self@ && ok == r.is_ok());
                assert(prev.receive_blobs(time, rtt_memory, blobs, i) == if ok {
                    next.receive_blobs(time, rtt_memory, blobs, i + 1)
                } else {
                    (next, false)
                });
            }
            if r.is_err() {
                return Err(());
            }
        }
        Ok(())
    }

    /// Hands the complete messages to the caller, in order. The identifier
    /// of each reliable one is remembered with `time`, so that fragments
    /// that the peer sends again do not start the message anew.
    pub fn flush_messages(&mut self, time: u128) -> (payloads: Vec<Vec<u8>>)
        requires
            old(self).wf(),
        ensures
            final(self).wf(),
            final(self)@ == old(self)@.flush(time).0,
            payloads_view(payloads@) == old(self)@.flush(time).1,
    {
        let mut payloads: Vec<Vec<u8>> = Vec::new();
        let mut kept: Vec<ReceiveMessage> = Vec::new();
        let mut messages: Vec<ReceiveMessage> = Vec::new();
        core::mem::swap(&mut self.receive_messages, &mut messages);
        let ghost views = receives_view(messages@);
        let ghost blacklist = self.reliable_blacklist@;
        let ghost stamp = remembered_at(time);
        let ghost payload = payload_of();
        proof {
            assert(views == old(self)@.receive_messages);
            assert(old(self)@.wf());
            reveal(Seq::filter);
            assert(views.take(0).filter(complete_messages()) =~= Seq::<ReceiveMessageView>::empty());
            assert(views.take(0).filter(incomplete_messages()) =~= Seq::<
                ReceiveMessageView,
            >::empty());
            assert(Seq::<ReceiveMessageView>::empty().filter(reliable_messages()) =~= Seq::<
                ReceiveMessageView,
            >::empty());
            assert(receives_view(kept@) =~= Seq::<ReceiveMessageView>::empty());
            assert(payloads_view(payloads@) =~= Seq::<Seq<u8>>::empty());
            assert(blacklist + Seq::<ReceiveMessageView>::empty().map_values(stamp) =~= blacklist);
            assert(Seq::<ReceiveMessageView>::empty().map_values(payload) =~= Seq::<Seq<u8>>::empty());
        }
        for message in it: messages.into_iter()
            invariant
                it.seq() == messages@,
                views == receives_view(messages@),
                stamp == remembered_at(time),
                payload == payload_of(),
                forall|i: int| 0 <= i < messages.len() ==> (#[trigger] messages[i]).wf(),
                forall|i: int| 0 <= i < views.len() ==> (#[trigger] views[i]).wf(),
                forall|i: int, j: int|
                    0 <= i < j < views.len() ==> (#[trigger] views[i]).fragmentation_id != (
                    #[trigger] views[j]).fragmentation_id,
                forall|i: int| 0 <= i < kept.len() ==> (#[trigger] kept[i]).wf(),
                forall|i: int, j: int|
                    0 <= i < kept.len() && it.index() <= j < views.len() ==> (
                    #[trigger] kept[i])@.fragmentation_id != (#[trigger] views[j]).fragmentation_id,
                forall|i: int, j: int|
                    0 <= i < j < kept.len() ==> (#[trigger] kept[i])@.fragmentation_id != (
                    #[trigger] kept[j])@.fragmentation_id,
                receives_view(kept@) == views.take(it.index() as int).filter(incomplete_messages()),
                payloads_view(payloads@) == views.take(it.index() as int).filter(
                    complete_messages(),
                ).map_values(payload),
                self.reliable_blacklist@ == blacklist + views.take(it.index() as int).filter(
                    complete_messages(),
                ).filter(reliable_messages()).map_values(stamp),
                self.receive_messages@.len() == 0,
                self.addr == old(self).addr,
                self.last_handshake == old(self).last_handshake,
                self.last_heartbeat == old(self).last_heartbeat,
                self.heartbeat_responses == old(self).heartbeat_responses,
                self.rtt_samples == old(self).rtt_samples,
                self.cached_rtt == old(self).cached_rtt,
                self.last_keep_alive == old(self).last_keep_alive,
                self.next_fragmentation_id == old(self).next_fragmentation_id,
                self.send_messages == old(self).send_messages,
                self.acknowledgements == old(self).acknowledgements,
                self.drop_connection == old(self).drop_connection,
                self.just_connected == old(self).just_connected,
                self.sent_packets == old(self).sent_packets,
                self.sent_bytes == old(self).sent_bytes,
                self.reliable_message_count == old(self).reliable_message_count,
                self.unreliable_message_count == old(self).unreliable_message_count,
        {
            let ghost i = it.index() as int;
            let ghost m = message@;
            let ghost done = views.take(i).filter(complete_messages());
            let ghost kept_before = kept@;
            let ghost payloads_before = payloads@;
            proof {
                assert(views[i] == m);
                assert(messages[i].wf());
                assert(views.take(i + 1) =~= views.take(i).push(m));
                views.take(i).lemma_filter_push(m, complete_messages());
                views.take(i).lemma_filter_push(m, incomplete_messages());
                done.lemma_filter_push(m, reliable_messages());
            }
            if message.complete() {
                if message.is_reliable() {
                    self.reliable_blacklist.push((time, message.fragmentation_id()));
                    assert(self.reliable_blacklist@ =~= blacklist + done.push(m).filter(
                        reliable_messages(),
                    ).map_values(stamp));
                }
                payloads.push(message.data());
                proof {
                    assert(payloads_view(payloads@) =~= payloads_view(payloads_before).push(m.data));
                    assert(done.push(m).map_values(payload) =~= done.map_values(payload).push(
                        m.data,
                    ));
                }
            } else {
                kept.push(message);
                proof {
                    assert(receives_view(kept@) =~= receives_view(kept_before).push(m));
                    assert forall|a: int| 0 <= a < kept.len() implies (#[trigger] kept[a]).wf() by {
                        if a < kept_before.len() {
                            assert(kept[a] == kept_before[a]);
                        }
                    }
                    assert forall|a: int, b: int|
                        0 <= a < kept.len() && i + 1 <= b < views.len() implies (
                    #[trigger] kept[a])@.fragmentation_id != (
                    #[trigger] views[b]).fragmentation_id by {
                        if a < kept_before.len() {
                            assert(kept[a] == kept_before[a]);
                        } else {
                            assert(views[i].fragmentation_id != views[b].fragmentation_id);
                        }
                    }
                    assert forall|a: int, b: int| 0 <= a < b < kept.len() implies (
                    #[trigger] kept[a])@.fragmentation_id != (
                    #[trigger] kept[b])@.fragmentation_id by {
                        assert(kept[a] == kept_before[a]);
                        if b < kept_before.len() {
                            assert(kept[b] == kept_before[b]);
                        } else {
                            assert(kept_before[a]@.fragmentation_id != views[i].fragmentation_id);
                        }
                    }
                }
            }
        }
        self.receive_messages = kept;
        proof {
            assert(views.take(views.len() as int) =~= views);
            let next = self@.receive_messages;
            assert forall|a: int| 0 <= a < next.len() implies (#[trigger] next[a]).wf() by {
                self.receive_messages[a].lemma_wf();
            }
            assert forall|a: int, b: int| 0 <= a < b < next.len() implies (
            #[trigger] next[a]).fragmentation_id != (#[trigger] next[b]).fragmentation_id by {
                assert(self.receive_messages[a]@.fragmentation_id
                    != self.receive_messages[b]@.fragmentation_id);
            }
        }
        payloads
    }

    /// Packs a wave of fragments of every message that is due.
    fn pack_fragments(&mut self, grouper: &mut PacketGrouper, time: u128, resend_delay: Option<u128>) -> (ok:
        bool)
        requires
            old(self).wf(),
            old(grouper).wf(),
        ensures
            final(self).wf(),
            final(grouper).wf(),
            (final(self)@, final(grouper)@, ok) == old(self)@.pack_fragments(
                old(grouper)@,
                time,
                resend_delay,
            ),
            final(self)@.addr == old(self)@.addr,
    {
        let ghost views = self@.send_messages;
        let ghost before = self.send_messages@;
        let ok = pack_messages(grouper, &mut self.send_messages, time, resend_delay);
        let ghost packed = sends_view(self.send_messages@);
        proof {
            assert(sends_view(before) == views);
            assert forall|i: int, j: int| 0 <= i < j < packed.len() implies distinct_sends()(
                #[trigger] packed[i],
                #[trigger] packed[j],
            ) by {
                assert(packed[i].fragmentation_id == before[i]@.fragmentation_id);
                assert(packed[j].fragmentation_id == before[j]@.fragmentation_id);
                assert(views[i].fragmentation_id != views[j].fragmentation_id);
            }
        }
        if ok {
            let mut taken: Vec<SendMessage> = Vec::new();
            core::mem::swap(&mut self.send_messages, &mut taken);
            self.send_messages = retain_undelivered(taken);
            proof {
                lemma_filter_pairwise(packed, undelivered(), distinct_sends());
            }
        }
        proof {
            let next = self@.send_messages;
            assert forall|i: int| 0 <= i < next.len() implies (#[trigger] next[i]).wf() by {
                self.send_messages[i].lemma_wf();
            }
            assert forall|i: int, j: int| 0 <= i < j < next.len() implies (
            #[trigger] next[i]).fragmentation_id != (#[trigger] next[j]).fragmentation_id by {
                assert(distinct_sends()(next[i], next[j]));
            }
            assert(self@.receive_messages == old(self)@.receive_messages);
        }
        ok
    }

    /// Packs a heartbeat, where one is due.
    fn pack_heartbeat(&mut self, grouper: &mut PacketGrouper, time: u128, interval: u128) -> (ok: bool)
        requires
            old(self).wf(),
            old(grouper).wf(),
        ensures
            final(self).wf(),
            final(grouper).wf(),
            (final(self)@, final(grouper)@, ok) == old(self)@.pack_heartbeat(
                old(grouper)@,
                time,
                interval,
            ),
            final(self)@.addr == old(self)@.addr,
    {
        let due = match self.last_heartbeat.checked_add(interval) {
            Some(next) => next <= time,
            None => false,
        };
        if due {
            self.last_heartbeat = time;
            grouper.add(Blob::Heartbeat(Heartbeat::new(time)))
        } else {
            true
        }
    }

    /// Packs the echoes that are owed to the peer.
    fn pack_responses(&mut self, grouper: &mut PacketGrouper) -> (ok: bool)
        requires
            old(self).wf(),
            old(grouper).wf(),
        ensures
            final(self).wf(),
            final(grouper).wf(),
            (final(self)@, final(grouper)@, ok) == old(self)@.pack_responses(old(grouper)@),
            final(self)@.addr == old(self)@.addr,
    {
        let mut blobs: Vec<Blob> = Vec::new();
        let mut i: usize = 0;
        while i < self.heartbeat_responses.len()
            invariant
                i <= self.heartbeat_responses.len(),
                blobs.len() == i,
                forall|k: int|
                    0 <= k < i ==> (#[trigger] blobs[k])@ == BlobView::HeartbeatResponse(
                        self.heartbeat_responses[k]@,
                    ),
            decreases self.heartbeat_responses.len() - i,
        {
            blobs.push(Blob::HeartbeatResponse(self.heartbeat_responses[i]));
            i += 1;
        }
        proof {
            assert(blobs_view(blobs@) =~= old(self)@.heartbeat_responses.map_values(
                response_blob(),
            ));
        }
        self.heartbeat_responses = Vec::new();
        proof {
            assert(self@.heartbeat_responses =~= Seq::<u64>::empty());
            assert(self@.send_messages == old(self)@.send_messages);
            assert(self@.receive_messages == old(self)@.receive_messages);
        }
        grouper.add_all(blobs)
    }

    /// Packs the acknowledgements that are owed to the peer.
    fn pack_acknowledgements(&mut self, grouper: &mut PacketGrouper) -> (ok: bool)
        requires
            old(self).wf(),
            old(grouper).wf(),
        ensures
            final(self).wf(),
            final(grouper).wf(),
            (final(self)@, final(grouper)@, ok) == old(self)@.pack_acknowledgements(old(grouper)@),
            final(self)@.addr == old(self)@.addr,
    {
        let mut blobs: Vec<Blob> = Vec::new();
        let mut i: usize = 0;
        while i < self.acknowledgements.len()
            invariant
                i <= self.acknowledgements.len(),
                blobs.len() == i,
                forall|k: int|
                    0 <= k < i ==> (#[trigger] blobs[k])@ == BlobView::Acknowledgement(
                        self.acknowledgements[k],
                    ),
            decreases self.acknowledgements.len() - i,
        {
            blobs.push(Blob::Acknowledgement(self.acknowledgements[i]));
            i += 1;
        }
        proof {
            assert(blobs_view(blobs@) =~= old(self)@.acknowledgements.map_values(
                acknowledgement_blob(),
            ));
        }
        self.acknowledgements = Vec::new();
        proof {
            assert(self@.acknowledgements =~= Seq::<Acknowledgement>::empty());
            assert(self@.send_messages == old(self)@.send_messages);
            assert(self@.receive_messages == old(self)@.receive_messages);
        }
        grouper.add_all(blobs)
    }

    /// Where the round trip time is known: gives up the incomplete
    /// unreliable messages that have waited too long, and forgets the
    /// identifiers that were remembered long enough.
    fn prune(&mut self, time: u128, delays: Option<Delays>)
        requires
            old(self).wf(),
        ensures
            final(self).wf(),
            final(self)@ == old(self)@.prune(time, delays),
            final(self)@.addr == old(self)@.addr,
    {
        if let Some(d) = delays {
            let ghost views = self@.receive_messages;
            let mut taken: Vec<ReceiveMessage> = Vec::new();
            core::mem::swap(&mut self.receive_messages, &mut taken);
            assert(receives_view(taken@) == views);
            self.receive_messages = retain_surviving(taken, time, d.unreliable_drop);
            self.reliable_blacklist = retain_remembered(
                &self.reliable_blacklist,
                time,
                d.blacklist_memory,
            );
            proof {
                assert forall|i: int, j: int| 0 <= i < j < views.len() implies distinct_receives()(
                    #[trigger] views[i],
                    #[trigger] views[j],
                ) by {
                    assert(views[i].fragmentation_id != views[j].fragmentation_id);
                }
                lemma_filter_pairwise(
                    views,
                    survives(time, d.unreliable_drop),
                    distinct_receives(),
                );
                let next = self@.receive_messages;
                assert forall|i: int| 0 <= i < next.len() implies (#[trigger] next[i]).wf() by {
                    self.receive_messages[i].lemma_wf();
                }
                assert forall|i: int, j: int| 0 <= i < j < next.len() implies (
                #[trigger] next[i]).fragmentation_id != (#[trigger] next[j]).fragmentation_id by {
                    assert(distinct_receives()(next[i], next[j]));
                }
                assert(self@.send_messages == old(self)@.send_messages);
            }
        }
    }

    /// Ends a tick early: the packets that were sent off stand, the packet
    /// that was being filled is given up.
    fn abort(&mut self, grouper: PacketGrouper) -> (tick: Tick)
        requires
            old(self).wf(),
            grouper.wf(),
        ensures
            final(self).wf(),
            final(self)@ == old(self)@.with_counters(grouper@),
            datagrams_view(tick.datagrams@) == wire_all(grouper@.sent),
            tick.error == Some(Error::MtuTooSmall),
            final(self)@.addr == old(self)@.addr,
    {
        self.sent_packets = grouper.sent_packets();
        self.sent_bytes = grouper.sent_bytes();
        proof {
            assert(self@.send_messages == old(self)@.send_messages);
            assert(self@.receive_messages == old(self)@.receive_messages);
        }
        Tick { datagrams: grouper.into_datagrams(), error: Some(Error::MtuTooSmall) }
    }

    /// A tick at `time`. `delays` holds the waiting times that follow from
    /// the round trip time estimate; while there is no estimate they are
    /// left aside.
    ///
    /// A connection whose peer has been silent for longer than the timeout
    /// is marked to be closed. While the handshake is pending, a handshake
    /// is sent where one is due, and nothing else. Else the blobs are packed
    /// into packets of the configured MTU in this order: a wave of fragments
    /// of every message that is due, a heartbeat where one is due, the
    /// heartbeat responses, the acknowledgements, and a disconnect where the
    /// connection is to be closed. The tick ends with `MtuTooSmall` where a
    /// blob fits no empty packet.
    pub fn update(&mut self, time: u128, config: &Config, delays: Option<Delays>) -> (tick: Tick)
        requires
            old(self).wf(),
        ensures
            final(self).wf(),
            final(self)@ == old(self)@.update(time, *config, delays).0,
            datagrams_view(tick.datagrams@) == old(self)@.update(time, *config, delays).1,
            tick.error == if old(self)@.update(time, *config, delays).2 {
                None
            } else {
                Some(Error::MtuTooSmall)
            },
            final(self)@.addr == old(self)@.addr,
    {
        let timed_out = match self.last_keep_alive.checked_add(config.timeout_delay) {
            Some(deadline) => deadline < time,
            None => false,
        };
        if timed_out {
            self.drop_connection = true;
        }
        let ghost start = self@;
        proof {
            assert(start == (ConnectionView {
                drop_connection: old(self)@.drop_connection || old(self)@.timed_out(
                    time,
                    config.timeout_delay,
                ),
                ..old(self)@
            }));
            assert(start.send_messages == old(self)@.send_messages);
            assert(start.receive_messages == old(self)@.receive_messages);
            assert(self.wf());
        }
        if self.last_handshake.is_some() {
            self.update_pending(time, config)
        } else {
            let known = if self.cached_rtt.is_some() {
                delays
            } else {
                None
            };
            self.update_established(time, config, known)
        }
    }

    /// A tick while the handshake is pending.
    fn update_pending(&mut self, time: u128, config: &Config) -> (tick: Tick)
        requires
            old(self).wf(),
        ensures
            final(self).wf(),
            final(self)@ == old(self)@.update_pending(time, *config).0,
            datagrams_view(tick.datagrams@) == old(self)@.update_pending(time, *config).1,
            tick.error.is_none(),
            final(self)@.addr == old(self)@.addr,
    {
        let due = match self.last_handshake {
            Some(None) => true,
            Some(Some(last)) => match last.checked_add(config.handshake_interval) {
                Some(next) => next <= time,
                None => false,
            },
            None => false,
        };
        let mut datagrams: Vec<Vec<u8>> = Vec::new();
        if due {
            let bytes = (Handshake { protocol_id: config.protocol_id }).serialize();
            self.last_handshake = Some(Some(time));
            self.sent_packets = self.sent_packets.saturating_add(1);
            self.sent_bytes = self.sent_bytes.saturating_add(bytes.len() as u64);
            datagrams.push(bytes);
        }
        proof {
            assert(self@.send_messages == old(self)@.send_messages);
            assert(self@.receive_messages == old(self)@.receive_messages);
            assert(datagrams_view(datagrams@) =~= old(self)@.update_pending(time, *config).1);
        }
        Tick { datagrams, error: None }
    }

    /// A tick of an established connection.
    #[verifier::rlimit(50)]
    fn update_established(&mut self, time: u128, config: &Config, delays: Option<Delays>) -> (tick:
        Tick)
        requires
            old(self).wf(),
        ensures
            final(self).wf(),
            final(self)@ == old(self)@.update_established(time, *config, delays).0,
            datagrams_view(tick.datagrams@) == wire_all(
                old(self)@.update_established(time, *config, delays).1,
            ),
            tick.error == if old(self)@.update_established(time, *config, delays).2 {
                None
            } else {
                Some(Error::MtuTooSmall)
            },
            final(self)@.addr == old(self)@.addr,
    {
        let mut grouper = PacketGrouper::new(config.mtu, self.sent_packets, self.sent_bytes);
        let resend_delay = match delays {
            Some(d) => Some(d.resend),
            None => None,
        };
        let ghost c0 = self@;
        let ghost g0 = grouper@;
        let ghost (c1, g1, ok1) = c0.pack_fragments(g0, time, resend_delay);
        let ghost (c2, g2, ok2) = c1.pack_heartbeat(g1, time, config.heartbeat_interval);
        let ghost (c3, g3, ok3) = c2.pack_responses(g2);
        let ghost (c4, g4, ok4) = c3.pack_acknowledgements(g3);
        let ghost (g5, ok5) = c4.pack_disconnect(g4);
        if !self.pack_fragments(&mut grouper, time, resend_delay) {
            return self.abort(grouper);
        }
        assert(self@ == c1 && grouper@ == g1 && ok1);
        if !self.pack_heartbeat(&mut grouper, time, config.heartbeat_interval) {
            return self.abort(grouper);
        }
        assert(self@ == c2 && grouper@ == g2 && ok2);
        if !self.pack_responses(&mut grouper) {
            return self.abort(grouper);
        }
        assert(self@ == c3 && grouper@ == g3 && ok3);
        if !self.pack_acknowledgements(&mut grouper) {
            return self.abort(grouper);
        }
        assert(self@ == c4 && grouper@ == g4 && ok4);
        if self.drop_connection {
            if !grouper.add(Blob::Disconnect) {
                return self.abort(grouper);
            }
        }
        assert(grouper@ == g5 && ok5);
        grouper.finish();
        self.sent_packets = grouper.sent_packets();
        self.sent_bytes = grouper.sent_bytes();
        proof {
            assert(self@.send_messages == c4.send_messages);
            assert(self@.receive_messages == c4.receive_messages);
            assert(self@ == c4.with_counters(g5.finish()));
        }
        let datagrams = grouper.into_datagrams();
        self.prune(time, delays);
        Tick { datagrams, error: None }
    }
}

/// The messages of which a byte is undelivered, in order.
fn retain_undelivered(messages: Vec<SendMessage>) -> (kept: Vec<SendMessage>)
    requires
        forall|i: int| 0 <= i < messages.len() ==> (#[trigger] messages[i]).wf(),
    ensures
        forall|i: int| 0 <= i < kept.len() ==> (#[trigger] kept[i]).wf(),
        sends_view(kept@) == sends_view(messages@).filter(undelivered()),
{
    let mut kept: Vec<SendMessage> = Vec::new();
    let ghost views = sends_view(messages@);
    proof {
        reveal(Seq::filter);
        assert(views.take(0).filter(undelivered()) =~= Seq::<SendMessageView>::empty());
        assert(sends_view(kept@) =~= Seq::<SendMessageView>::empty());
    }
    for message in it: messages.into_iter()
        invariant
            it.seq() == messages@,
            views == sends_view(messages@),
            forall|i: int| 0 <= i < messages.len() ==> (#[trigger] messages[i]).wf(),
            forall|i: int| 0 <= i < kept.len() ==> (#[trigger] kept[i]).wf(),
            sends_view(kept@) == views.take(it.index() as int).filter(undelivered()),
    {
        let ghost i = it.index() as int;
        let ghost m = message@;
        let ghost kept_before = kept@;
        proof {
            assert(views[i] == m);
            assert(messages[i].wf());
            assert(views.take(i + 1) =~= views.take(i).push(m));
            views.take(i).lemma_filter_push(m, undelivered());
        }
        if !message.delivered() {
            kept.push(message);
            proof {
                assert(sends_view(kept@) =~= sends_view(kept_before).push(m));
                assert forall|a: int| 0 <= a < kept.len() implies (#[trigger] kept[a]).wf() by {
                    if a < kept_before.len() {
                        assert(kept[a] == kept_before[a]);
                    }
                }
            }
        }
    }
    assert(views.take(views.len() as int) =~= views);
    kept
}

/// The messages that are not given up at `time`, in order.
fn retain_surviving(messages: Vec<ReceiveMessage>, time: u128, drop_delay: u128) -> (kept: Vec<
    ReceiveMessage,
>)
    requires
        forall|i: int| 0 <= i < messages.len() ==> (#[trigger] messages[i]).wf(),
    ensures
        forall|i: int| 0 <= i < kept.len() ==> (#[trigger] kept[i]).wf(),
        receives_view(kept@) == receives_view(messages@).filter(survives(time, drop_delay)),
{
    let mut kept: Vec<ReceiveMessage> = Vec::new();
    let ghost views = receives_view(messages@);
    proof {
        reveal(Seq::filter);
        assert(views.take(0).filter(survives(time, drop_delay)) =~= Seq::<
            ReceiveMessageView,
        >::empty());
        assert(receives_view(kept@) =~= Seq::<ReceiveMessageView>::empty());
    }
    for message in it: messages.into_iter()
        invariant
            it.seq() == messages@,
            views == receives_view(messages@),
            forall|i: int| 0 <= i < messages.len() ==> (#[trigger] messages[i]).wf(),
            forall|i: int| 0 <= i < kept.len() ==> (#[trigger] kept[i]).wf(),
            receives_view(kept@) == views.take(it.index() as int).filter(
                survives(time, drop_delay),
            ),
    {
        let ghost i = it.index() as int;
        let ghost m = message@;
        let ghost kept_before = kept@;
        proof {
            assert(views[i] == m);
            assert(messages[i].wf());
            assert(views.take(i + 1) =~= views.take(i).push(m));
            views.take(i).lemma_filter_push(m, survives(time, drop_delay));
        }
        let waiting = match message.last_received_time().checked_add(drop_delay) {
            Some(deadline) => deadline > time,
            None => true,
        };
        if message.is_reliable() || message.complete() || waiting {
            kept.push(message);
            proof {
                assert(receives_view(kept@) =~= receives_view(kept_before).push(m));
                assert forall|a: int| 0 <= a < kept.len() implies (#[trigger] kept[a]).wf() by {
                    if a < kept_before.len() {
                        assert(kept[a] == kept_before[a]);
                    }
                }
            }
        }
    }
    assert(views.take(views.len() as int) =~= views);
    kept
}

/// The remembered identifiers that are not forgotten at `time`, in order.
fn retain_remembered(entries: &Vec<(u128, u16)>, time: u128, memory: u128) -> (kept: Vec<(u128, u16)>)
    ensures
        kept@ == entries@.filter(remembered(time, memory)),
{
    let mut kept: Vec<(u128, u16)> = Vec::new();
    let mut i: usize = 0;
    proof {
        reveal(Seq::filter);
        assert(entries@.take(0).filter(remembered(time, memory)) =~= Seq::<(u128, u16)>::empty());
    }
    while i < entries.len()
        invariant
            i <= entries.len(),
            kept@ == entries@.take(i as int).filter(remembered(time, memory)),
        decreases entries.len() - i,
    {
        let entry = entries[i];
        proof {
            assert(entries@.take(i + 1) =~= entries@.take(i as int).push(entry));
            entries@.take(i as int).lemma_filter_push(entry, remembered(time, memory));
        }
        let remembered = match entry.0.checked_add(memory) {
            Some(until) => until >= time,
            None => true,
        };
        if remembered {
            kept.push(entry);
        }
        i += 1;
    }
    assert(entries@.take(i as int) =~= entries@);
    kept
}

/// Adds a sample and keeps the newest `memory` samples.
fn push_sample(samples: &mut VecDeque<u128>, sample: u128, memory: usize)
    ensures
        final(samples)@ == newest(old(samples)@.push(sample), memory),
{
    samples.push_back(sample);
    let ghost all = samples@;
    while samples.len() > memory
        invariant
            samples.len() <= all.len(),
            samples.len() >= memory || samples.len() == all.len(),
            samples@ == all.subrange(all.len() - samples.len(), all.len() as int),
        decreases samples.len(),
    {
        samples.pop_front();
        assert(samples@ =~= all.subrange(all.len() - samples.len(), all.len() as int));
    }
    assert(samples@ =~= newest(all, memory));
}

/// The mean of the samples, if there are any.
fn mean_of(samples: &VecDeque<u128>) -> (m: Option<u128>)
    ensures
        m == if samples@.len() == 0 {
            None
        } else {
            Some(mean(samples@))
        },
{
    let count = samples.len();
    if count == 0 {
        return None;
    }
    let mut total: u128 = 0;
    let mut i: usize = 0;
    assert(samples@.take(0) =~= Seq::<u128>::empty());
    while i < count
        invariant
            count == samples@.len(),
            i <= count,
            total == if sum(samples@.take(i as int)) > u128::MAX {
                u128::MAX as int
            } else {
                sum(samples@.take(i as int)) as int
            },
        decreases count - i,
    {
        proof {
            let next = samples@.take(i + 1);
            assert(next.drop_last() =~= samples@.take(i as int));
            assert(next.last() == samples@[i as int]);
        }
        total = total.saturating_add(samples[i]);
        i += 1;
    }
    assert(samples@.take(i as int) =~= samples@);
    Some(total / count as u128)
}

/// The bytes of a list of payloads.
pub open spec fn payloads_view(payloads: Seq<Vec<u8>>) -> Seq<Seq<u8>> {
    Seq::new(payloads.len(), |i: int| payloads[i]@)
}

} // verus!
