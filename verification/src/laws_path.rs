//! The way of a message from the datagrams that carry it to the event that
//! tells of it.

use crate::connection::{lemma_first_match, ConnectionView};
use crate::intervals::covered;
use crate::laws::lemma_first_position_exists;
use crate::laws_rounds::{lemma_connected, names};
use crate::laws_waves::{law_single_delivery, piece_of, ranges_of, receive_fragments};
use crate::message::SendMessageView;
use crate::packet::{
    lemma_handshake_is_no_packet, lemma_packet_round_trip, packet_wire, parse_handshake, BlobView,
    FragmentView,
};
use crate::socket::{connected_to, index_of, received_event, SocketEventView, SocketView};
use crate::Address;
use vstd::prelude::*;

verus! {

/// The events that name the peer `addr`.
pub open spec fn naming(addr: Address) -> spec_fn(SocketEventView) -> bool {
    |event: SocketEventView| names(event, addr)
}

/// The datagram that carries `fragment` and nothing else.
pub open spec fn fragment_datagram(fragment: FragmentView) -> Seq<u8> {
    packet_wire(seq![BlobView::Fragment(fragment)])
}

/// The connection after a sign of life at `time`.
pub open spec fn alive_at(c: ConnectionView, time: u128) -> ConnectionView {
    ConnectionView { last_keep_alive: time, ..c }
}

/// What the datagrams of the fragments do that arrive from `addr` at
/// `time`, one after the other. Beside the endpoint stand the events.
pub open spec fn receive_pieces(
    s: SocketView,
    time: u128,
    addr: Address,
    fragments: Seq<FragmentView>,
) -> (SocketView, Seq<SocketEventView>)
    decreases fragments.len(),
{
    if fragments.len() == 0 {
        (s, Seq::empty())
    } else {
        let (next, event) = s.receive(time, addr, fragment_datagram(fragments[0]));
        let (end, events) = receive_pieces(
            next,
            time,
            addr,
            fragments.subrange(1, fragments.len() as int),
        );
        (
            end,
            match event {
                Some(e) => seq![e] + events,
                None => events,
            },
        )
    }
}

/// Of the events that tell of messages from `peer`, those that name `addr`
/// are all of them where `peer` is `addr`, and none else.
proof fn lemma_filter_named(payloads: Seq<Seq<u8>>, peer: Address, addr: Address)
    ensures
        payloads.map_values(received_event(peer)).filter(naming(addr)) == if peer == addr {
            payloads.map_values(received_event(peer))
        } else {
            Seq::empty()
        },
    decreases payloads.len(),
{
    reveal(Seq::filter);
    let events = payloads.map_values(received_event(peer));
    if payloads.len() > 0 {
        assert(events.drop_last() =~= payloads.drop_last().map_values(received_event(peer)));
        lemma_filter_named(payloads.drop_last(), peer, addr);
        assert(events.last() == received_event(peer)(payloads.last()));
        if peer == addr {
            assert(events.filter(naming(addr)) =~= events);
        }
    } else {
        assert(events.filter(naming(addr)) =~= Seq::<SocketEventView>::empty());
    }
}

/// Of the events of the flushes from the connection at `index` on, those
/// that name the peer of the connection at `k` are that connection's
/// messages, in order, where its flush is among them.
proof fn lemma_flush_events(s: SocketView, time: u128, index: int, k: int)
    requires
        0 <= index <= s.connections.len(),
        0 <= k < s.connections.len(),
        forall|i: int, j: int|
            0 <= i < j < s.connections.len() ==> (#[trigger] s.connections[i]).addr != (
            #[trigger] s.connections[j]).addr,
    ensures
        s.flush_from(time, index).1.filter(naming(s.connections[k].addr)) == if index <= k {
            s.connections[k].flush(time).1.map_values(received_event(s.connections[k].addr))
        } else {
            Seq::empty()
        },
    decreases s.connections.len() - index,
{
    let addr = s.connections[k].addr;
    if index < s.connections.len() {
        let c = s.connections[index];
        let (flushed, payloads) = c.flush(time);
        let next = SocketView { connections: s.connections.update(index, flushed), ..s };
        let rest = next.flush_from(time, index + 1);
        let mine = payloads.map_values(received_event(flushed.addr));
        assert(s.flush_from(time, index).1 == mine + rest.1);
        assert forall|i: int, j: int| 0 <= i < j < next.connections.len() implies (
        #[trigger] next.connections[i]).addr != (#[trigger] next.connections[j]).addr by {
            assert(next.connections[i].addr == s.connections[i].addr);
            assert(next.connections[j].addr == s.connections[j].addr);
        }
        lemma_flush_events(next, time, index + 1, k);
        lemma_filter_named(payloads, flushed.addr, addr);
        Seq::filter_distributes_over_add(mine, rest.1, naming(addr));
        if index == k {
            assert(mine + Seq::<SocketEventView>::empty() =~= mine);
        } else {
            if index < k {
                assert(s.connections[index].addr != s.connections[k].addr);
            } else {
                assert(s.connections[k].addr != s.connections[index].addr);
            }
            assert(next.connections[k] == s.connections[k]);
            assert(Seq::<SocketEventView>::empty() + rest.1.filter(naming(addr)) =~= rest.1.filter(
                naming(addr),
            ));
        }
    } else {
        reveal(Seq::filter);
        assert(s.flush_from(time, index).1.filter(naming(addr)) =~= Seq::<SocketEventView>::empty());
    }
}

/// Fragments keep a connection's peer and its last sign of life.
proof fn lemma_fragments_keep(c: ConnectionView, time: u128, fragments: Seq<FragmentView>)
    ensures
        receive_fragments(c, time, fragments).0.addr == c.addr,
        receive_fragments(c, time, fragments).0.last_keep_alive == c.last_keep_alive,
    decreases fragments.len(),
{
    if fragments.len() > 0 {
        let (next, ok) = c.receive_fragment(time, fragments[0]);
        if ok {
            lemma_fragments_keep(next, time, fragments.subrange(1, fragments.len() as int));
        }
    }
}

/// Datagrams that each carry one valid fragment, none of which the
/// connection with their sender refuses, cause no event, and do to the
/// connection what the fragments do.
proof fn lemma_receive_pieces(
    s: SocketView,
    time: u128,
    addr: Address,
    fragments: Seq<FragmentView>,
)
    requires
        s.is_connected(addr),
        fragments.len() > 0,
        forall|k: int| 0 <= k < fragments.len() ==> (#[trigger] fragments[k]).valid(),
        receive_fragments(alive_at(s.connection(addr), time), time, fragments).1,
    ensures
        receive_pieces(s, time, addr, fragments).1 == Seq::<SocketEventView>::empty(),
        receive_pieces(s, time, addr, fragments).0 == s.with_connection(
            addr,
            receive_fragments(alive_at(s.connection(addr), time), time, fragments).0,
        ),
    decreases fragments.len(),
{
    let first = fragments[0];
    let rest = fragments.subrange(1, fragments.len() as int);
    let blobs = seq![BlobView::Fragment(first)];
    let bytes = fragment_datagram(first);
    assert(first.valid());
    assert(blobs[0].valid());
    lemma_packet_round_trip(blobs);
    if parse_handshake(bytes).is_some() {
        lemma_handshake_is_no_packet(bytes);
    }
    let c = s.connection(addr);
    let alive = alive_at(c, time);
    let (grown, ok) = alive.receive_fragment(time, first);
    assert(ok);
    assert(alive.receive_blobs(time, s.config.rtt_memory, blobs, 0) == (grown, true)) by {
        reveal_with_fuel(ConnectionView::receive_blobs, 3);
    }
    let (next, event) = s.receive(time, addr, bytes);
    assert(event.is_none());
    assert(next == s.with_connection(addr, grown));
    lemma_connected(s, addr);
    lemma_first_position_exists(s.connections, connected_to(addr));
    let i = index_of(s.connections, addr);
    assert(grown.addr == addr);
    assert forall|j: int| 0 <= j < i implies !connected_to(addr)(#[trigger] next.connections[j]) by {
        assert(next.connections[j] == s.connections[j]);
    }
    lemma_first_match(next.connections, connected_to(addr), i);
    assert(next.connection(addr) == grown);
    assert(alive_at(grown, time) == grown);
    if rest.len() == 0 {
        assert(receive_pieces(next, time, addr, rest).1 == Seq::<SocketEventView>::empty());
    } else {
        assert forall|k: int| 0 <= k < rest.len() implies (#[trigger] rest[k]).valid() by {
            assert(rest[k] == fragments[k + 1]);
        }
        lemma_receive_pieces(next, time, addr, rest);
        let end = receive_fragments(grown, time, rest).0;
        assert(next.with_connection(addr, end).connections =~= s.with_connection(
            addr,
            end,
        ).connections);
    }
}

/// Datagrams that each carry one piece of a message, and together every
/// byte of it, arriving from a peer in any order and however often at an
/// endpoint whose connection with the peer neither has nor remembers the
/// message, cause no event. The next flush then tells of the message once:
/// its events that name the peer are those that it would have had without
/// the datagrams, and behind them the message.
pub proof fn law_datagrams_to_event(
    s: SocketView,
    addr: Address,
    message: SendMessageView,
    fragments: Seq<FragmentView>,
    time: u128,
    later: u128,
)
    requires
        s.wf(),
        s.is_connected(addr),
        message.wf(),
        message.data.len() > 0,
        fragments.len() > 0,
        forall|k: int|
            0 <= k < fragments.len() ==> piece_of(message, #[trigger] fragments[k])
                && fragments[k].sized(),
        forall|i: int| 0 <= i < message.data.len() ==> covered(ranges_of(fragments), i),
        forall|j: int|
            0 <= j < s.connection(addr).receive_messages.len() ==> (#[trigger] s.connection(
                addr,
            ).receive_messages[j]).fragmentation_id != message.fragmentation_id,
        message.reliable.is_some() ==> !s.connection(addr).is_blacklisted(
            message.fragmentation_id,
        ),
    ensures
        receive_pieces(s, time, addr, fragments).1 == Seq::<SocketEventView>::empty(),
        receive_pieces(s, time, addr, fragments).0.flush_from(later, 0).1.filter(naming(addr))
            == s.flush_from(later, 0).1.filter(naming(addr)).push(
            SocketEventView::Received { addr, data: message.data },
        ),
{
    let c = s.connection(addr);
    let alive = alive_at(c, time);
    lemma_connected(s, addr);
    lemma_first_position_exists(s.connections, connected_to(addr));
    let i = index_of(s.connections, addr);
    assert(alive.receive_messages == c.receive_messages);
    assert(alive.is_blacklisted(message.fragmentation_id) == c.is_blacklisted(
        message.fragmentation_id,
    ));
    law_single_delivery(alive, message, time, fragments, later);
    lemma_fragments_keep(alive, time, fragments);
    assert forall|k: int| 0 <= k < fragments.len() implies (#[trigger] fragments[k]).valid() by {
        assert(piece_of(message, fragments[k]));
    }
    lemma_receive_pieces(s, time, addr, fragments);
    let end = receive_fragments(alive, time, fragments).0;
    let after = s.with_connection(addr, end);
    assert forall|a: int, b: int| 0 <= a < b < after.connections.len() implies (
    #[trigger] after.connections[a]).addr != (#[trigger] after.connections[b]).addr by {
        assert(after.connections[a].addr == s.connections[a].addr);
        assert(after.connections[b].addr == s.connections[b].addr);
    }
    lemma_flush_events(s, later, 0, i);
    lemma_flush_events(after, later, 0, i);
    assert(alive.flush(later).1 == c.flush(later).1);
    assert(c.flush(later).1.push(message.data).map_values(received_event(addr)) =~= c.flush(
        later,
    ).1.map_values(received_event(addr)).push(
        SocketEventView::Received { addr, data: message.data },
    ));
}

} // verus!
