//! What holds of the engine across its operations.

use crate::connection::{
    acknowledgement_blob, complete_messages, first_match, heartbeat_millis, incomplete_messages, is_first_match,
    lemma_filter_member, lemma_first_match, payload_of, reliable_messages, remembered_at,
    response_blob, ConnectionView,
};
use crate::intervals::{
    canonical, covered, full, gaps_from, inserted, is_union, lemma_finished, lemma_inserted,
    lemma_inserted_union,
};
use crate::message::{
    carve_end, spec_create_blob, spec_is_due, ReceiveMessageView, SendMessageView,
};
use crate::packer::{
    after_wave, carve, lemma_carve_progress, pack_from, saturating, wave_remaining, wire_all,
    GrouperView,
};
use crate::packet::{
    handshake_wire, lemma_blob_len, lemma_handshake_round_trip, lemma_packet_wire_push,
    packet_wire, parse_handshake, Acknowledgement, BlobView, FragmentView,
};
use crate::socket::{
    closed_event, closing, connected_to, index_of, staying, SocketEventView, SocketView,
};
use crate::{Address, Config, Delays};
use vstd::prelude::*;

verus! {

/// A complete reliable message that is handed to the caller is handed over
/// with its payload, its identifier is remembered, and no message with its
/// identifier stays behind.
pub proof fn law_delivered_is_remembered(c: ConnectionView, time: u128, i: int)
    requires
        c.wf(),
        0 <= i < c.receive_messages.len(),
        c.receive_messages[i].complete(),
        c.receive_messages[i].reliable,
    ensures
        c.flush(time).1.contains(c.receive_messages[i].data),
        c.flush(time).0.is_blacklisted(c.receive_messages[i].fragmentation_id),
        forall|k: int|
            0 <= k < c.flush(time).0.receive_messages.len() ==> (
            #[trigger] c.flush(time).0.receive_messages[k]).fragmentation_id
                != c.receive_messages[i].fragmentation_id,
{
    let m = c.receive_messages[i];
    let done = c.receive_messages.filter(complete_messages());
    let reliable = done.filter(reliable_messages());
    let entries = reliable.map_values(remembered_at(time));
    let next = c.flush(time).0;
    c.receive_messages.lemma_filter_contains(complete_messages(), i);
    let a = choose|a: int| 0 <= a < done.len() && done[a] == m;
    done.lemma_filter_contains(reliable_messages(), a);
    let b = choose|b: int| 0 <= b < reliable.len() && reliable[b] == m;
    assert(entries[b] == (time, m.fragmentation_id));
    assert(next.reliable_blacklist[c.reliable_blacklist.len() + b] == entries[b]);
    assert(done.map_values(payload_of())[a] == m.data);
    assert forall|k: int| 0 <= k < next.receive_messages.len() implies (
    #[trigger] next.receive_messages[k]).fragmentation_id != m.fragmentation_id by {
        let j = lemma_filter_member(c.receive_messages, incomplete_messages(), k);
        c.receive_messages.lemma_filter_pred(incomplete_messages(), k);
        if j < i {
            assert(c.receive_messages[j].fragmentation_id != c.receive_messages[i].fragmentation_id);
        } else if i < j {
            assert(c.receive_messages[i].fragmentation_id != c.receive_messages[j].fragmentation_id);
        }
    }
}

/// While its identifier is remembered, a fragment of a reliable message is
/// acknowledged and does nothing else: it starts no message, and the caller
/// is handed what it would have been handed without it.
pub proof fn law_duplicate_is_suppressed(c: ConnectionView, time: u128, fragment: FragmentView, later: u128)
    requires
        fragment.send_ack,
        c.is_blacklisted(fragment.fragmentation_id),
    ensures
        c.receive_fragment(time, fragment) == (
            ConnectionView {
                acknowledgements: c.acknowledgements.push(
                    Acknowledgement {
                        fragmentation_id: fragment.fragmentation_id,
                        start: fragment.start,
                        len: fragment.data.len() as u16,
                    },
                ),
                ..c
            },
            true,
        ),
        c.receive_fragment(time, fragment).0.flush(later).1 == c.flush(later).1,
        c.receive_fragment(time, fragment).0.flush(later).0.receive_messages == c.flush(
            later,
        ).0.receive_messages,
{
}

/// While the handshake is pending, a tick sends handshakes and nothing
/// else, and never fails.
pub proof fn law_pending_sends_only_handshakes(
    c: ConnectionView,
    time: u128,
    config: Config,
    delays: Option<Delays>,
)
    requires
        c.last_handshake.is_some(),
    ensures
        c.update(time, config, delays).2,
        forall|i: int|
            0 <= i < c.update(time, config, delays).1.len() ==> #[trigger] c.update(
                time,
                config,
                delays,
            ).1[i] == handshake_wire(config.protocol_id),
        c.update(time, config, delays).0.send_messages == c.send_messages,
        c.update(time, config, delays).0.acknowledgements == c.acknowledgements,
        c.update(time, config, delays).0.heartbeat_responses == c.heartbeat_responses,
{
}

/// A blob that was added is the last blob of the packet that is being filled.
pub proof fn lemma_added_is_last(g: GrouperView, blob: BlobView)
    requires
        g.add(blob).1,
    ensures
        g.add(blob).0.current.len() > 0,
        g.add(blob).0.current.last() == blob,
{
}

/// A tick keeps the peer, and keeps a connection that is to be closed so.
pub proof fn lemma_update_keeps(c: ConnectionView, time: u128, config: Config, delays: Option<Delays>)
    ensures
        c.update(time, config, delays).0.addr == c.addr,
        c.drop_connection ==> c.update(time, config, delays).0.drop_connection,
        c.update(time, config, delays).0.last_handshake == c.last_handshake || c.update(
            time,
            config,
            delays,
        ).0.last_handshake == Some(Some(time)),
{
}

/// The tick of an established connection that is to be closed, where it
/// does not fail, ends with a disconnect blob: the last blob of the last
/// packet.
pub proof fn law_closing_sends_disconnect(
    c: ConnectionView,
    time: u128,
    config: Config,
    delays: Option<Delays>,
)
    requires
        c.drop_connection,
        c.last_handshake.is_none(),
        c.update_established(time, config, delays).2,
    ensures
        c.update_established(time, config, delays).1.len() > 0,
        c.update_established(time, config, delays).1.last().len() > 0,
        c.update_established(time, config, delays).1.last().last() == BlobView::Disconnect,
{
    let g0 = GrouperView::new(config.mtu, c.sent_packets, c.sent_bytes);
    let resend_delay = match delays {
        Some(d) => Some(d.resend),
        None => None,
    };
    let (c1, g1, ok1) = c.pack_fragments(g0, time, resend_delay);
    let (c2, g2, ok2) = c1.pack_heartbeat(g1, time, config.heartbeat_interval);
    let (c3, g3, ok3) = c2.pack_responses(g2);
    let (c4, g4, ok4) = c3.pack_acknowledgements(g3);
    let (g5, ok5) = c4.pack_disconnect(g4);
    assert(c4.drop_connection);
    lemma_added_is_last(g4, BlobView::Disconnect);
    assert(g5.finish().sent.last() == g5.current);
}

/// After `close_connection` the next round of ticks closes the connection:
/// the caller is told, no connection with the peer is left, and whatever
/// arrives from the peer afterwards, short of a new handshake, does and
/// tells nothing.
pub proof fn law_close_connection(
    s: SocketView,
    addr: Address,
    time: u128,
    delays: Option<Delays>,
    later: u128,
    bytes: Seq<u8>,
)
    requires
        s.wf(),
        s.is_connected(addr),
        parse_handshake(bytes).is_none(),
    ensures
        ({
            let closing = s.close_connection(addr).0;
            let ticked = closing.update_connection(index_of(s.connections, addr), time, delays).0;
            let (end, events) = ticked.remove_dropped();
            &&& s.close_connection(addr).1
            &&& events.contains(SocketEventView::ClosedConnection { addr })
            &&& !end.is_connected(addr)
            &&& end.receive(later, addr, bytes) == (end, None::<SocketEventView>)
        }),
{
    let i = index_of(s.connections, addr);
    lemma_first_position_exists(s.connections, connected_to(addr));
    assert(s.connections[i].addr == addr);
    let marked = s.close_connection(addr).0;
    let c = marked.connections[i];
    assert(c.drop_connection && c.addr == addr);
    lemma_update_keeps(c, time, s.config, delays);
    let ticked = marked.update_connection(i, time, delays).0;
    let t = ticked.connections[i];
    assert(t.drop_connection && t.addr == addr);
    let (end, events) = ticked.remove_dropped();
    // the caller is told
    let gone = ticked.connections.filter(closing());
    ticked.connections.lemma_filter_contains(closing(), i);
    let a = choose|a: int| 0 <= a < gone.len() && gone[a] == t;
    assert(gone.map_values(closed_event())[a] == SocketEventView::ClosedConnection { addr });
    // no connection with the peer is left
    assert forall|k: int| 0 <= k < end.connections.len() implies !connected_to(addr)(
        #[trigger] end.connections[k],
    ) by {
        let j = lemma_filter_member(ticked.connections, staying(), k);
        ticked.connections.lemma_filter_pred(staying(), k);
        if j != i {
            assert(ticked.connections[j] == marked.connections[j]);
            assert(marked.connections[j] == s.connections[j]);
            if j < i {
                assert(s.connections[j].addr != s.connections[i].addr);
            } else {
                assert(s.connections[i].addr != s.connections[j].addr);
            }
        }
    }
    lemma_first_match(end.connections, connected_to(addr), end.connections.len() as int);
}

/// Every list has a first position at which a predicate holds, or none.
pub proof fn lemma_first_position_exists<T>(s: Seq<T>, p: spec_fn(T) -> bool)
    ensures
        is_first_match(s, p, first_match(s, p)),
    decreases s.len(),
{
    if s.len() == 0 {
        assert(is_first_match(s, p, 0));
    } else {
        let init = s.drop_last();
        lemma_first_position_exists(init, p);
        let k = first_match(init, p);
        if k < init.len() {
            assert(init[k] == s[k]);
            assert forall|j: int| 0 <= j < k implies !p(#[trigger] s[j]) by {
                assert(init[j] == s[j]);
            }
            assert(is_first_match(s, p, k));
        } else {
            assert forall|j: int| 0 <= j < init.len() implies !p(#[trigger] s[j]) by {
                assert(init[j] == s[j]);
            }
            if p(s.last()) {
                assert(is_first_match(s, p, s.len() - 1));
            } else {
                assert(is_first_match(s, p, s.len() as int));
            }
        }
    }
}

/// The fragments that carry a payload from byte `from` on in pieces of
/// `piece` bytes, the last one shorter where the payload ends.
pub open spec fn chunks(message: SendMessageView, piece: int, from: int) -> Seq<FragmentView>
    decreases message.data.len() - from,
{
    if piece <= 0 || from < 0 || from >= message.data.len() {
        Seq::empty()
    } else {
        let end = if from + piece < message.data.len() {
            from + piece
        } else {
            message.data.len() as int
        };
        seq![message.fragment(from, end)] + chunks(message, piece, end)
    }
}

/// The packets that each hold one of the fragments.
pub open spec fn single_packets(fragments: Seq<FragmentView>) -> Seq<Seq<BlobView>> {
    Seq::new(fragments.len(), |i: int| seq![BlobView::Fragment(fragments[i])])
}

/// What the fragments make of an incoming message, one after the other;
/// `None` where the message does not accept one of them.
pub open spec fn feed(message: ReceiveMessageView, time: u128, fragments: Seq<FragmentView>) -> Option<
    ReceiveMessageView,
>
    decreases fragments.len(),
{
    if fragments.len() == 0 {
        Some(message)
    } else if message.accepts(fragments[0]) {
        feed(
            message.add(time, fragments[0]),
            time,
            fragments.subrange(1, fragments.len() as int),
        )
    } else {
        None
    }
}

/// The holes of a message of which the first `c` bytes are delivered.
proof fn lemma_prefix_gaps(c: int, size: int)
    requires
        0 <= c <= size,
    ensures
        canonical(full(c), size),
        gaps_from(full(c), size, 0) == if c < size {
            seq![(c, size)]
        } else {
            Seq::<(int, int)>::empty()
        },
{
    let w = full(c);
    reveal_with_fuel(gaps_from, 4);
    if c > 0 {
        assert(w[0] == (0int, c));
        assert(gaps_from(w, size, 2) =~= Seq::<(int, int)>::empty());
        if c < size {
            assert(gaps_from(w, size, 1) =~= seq![(c, size)]);
        } else {
            assert(gaps_from(w, size, 1) =~= Seq::<(int, int)>::empty());
        }
        assert(gaps_from(w, size, 0) == gaps_from(w, size, 1));
    } else {
        assert(gaps_from(w, size, 1) =~= Seq::<(int, int)>::empty());
        if c < size {
            assert(gaps_from(w, size, 0) =~= seq![(0int, size)]);
        } else {
            assert(gaps_from(w, size, 0) =~= Seq::<(int, int)>::empty());
        }
    }
}

/// Recording the bytes `[c, e)` behind the first `c` bytes gives the first `e` bytes.
proof fn lemma_extend_prefix(c: int, e: int, size: int)
    requires
        0 <= c < e <= size,
    ensures
        inserted(full(c), size, c, e) == full(e),
{
    let before = full(c);
    let after = full(e);
    assert(after[0] == (0int, e));
    assert forall|i: int| #[trigger]
        covered(after, i) <==> covered(before, i) || (c <= i < e && 0 <= i < size) by {
        if covered(before, i) {
            assert(before[0] == (0int, c));
            let k = choose|k: int|
                0 <= k < before.len() && (#[trigger] before[k]).0 <= i < before[k].1;
            assert(after[0].0 <= i < after[0].1);
        }
        if c <= i < e {
            assert(after[0].0 <= i < after[0].1);
        }
        if covered(after, i) {
            let k = choose|k: int| 0 <= k < after.len() && (#[trigger] after[k]).0 <= i < after[k].1;
            if i < c {
                assert(before[0] == (0int, c));
                assert(before[0].0 <= i < before[0].1);
            }
        }
    }
    assert(is_union(after, before, size, c, e));
    lemma_inserted(after, before, size, c, e);
}

/// A packet of one blob is the two bytes of its length and the blob.
proof fn lemma_single_packet(blob: BlobView)
    ensures
        packet_wire(seq![blob]).len() == 2 + blob.wire().len(),
        packet_wire(Seq::<BlobView>::empty()).len() == 0,
{
    let one = seq![blob];
    reveal_with_fuel(packet_wire, 3);
    assert(one.subrange(1, 1) =~= Seq::<BlobView>::empty());
    lemma_blob_len(blob);
}

/// From an empty packet, a wave over a message of which the first `from`
/// bytes are delivered goes through where the MTU is at least fourteen
/// bytes: it sends the rest of the payload in pieces of the MTU less
/// thirteen bytes, one fragment in each packet.
pub proof fn lemma_carve_chunks(g: GrouperView, message: SendMessageView, from: int)
    requires
        message.wf(),
        0 <= from < message.data.len(),
        g.mtu >= 14,
        g.current.len() == 0,
    ensures
        carve(g, message, full(from)).2,
        carve(g, message, full(from)).1 == full(message.data.len() as int),
        carve(g, message, full(from)).0.finish().sent == g.sent + single_packets(
            chunks(message, g.mtu - 13, from),
        ),
    decreases message.data.len() - from,
{
    let size = message.data.len() as int;
    let piece = g.mtu - 13;
    let end = if from + piece < size {
        from + piece
    } else {
        size
    };
    let fragment = message.fragment(from, end);
    let blob = BlobView::Fragment(fragment);
    let rest = chunks(message, piece, end);
    lemma_prefix_gaps(from, size);
    lemma_prefix_gaps(end, size);
    lemma_extend_prefix(from, end, size);
    lemma_single_packet(blob);
    assert(g.current =~= Seq::<BlobView>::empty());
    assert(g.space_left() == g.mtu - 2);
    assert(g.fragment_room() == g.mtu - 3);
    let available = (g.mtu - 3) as u16;
    assert(carve_end((from, size), available as int) == end);
    let step = spec_create_blob(message, full(from), available);
    assert(step.0 == Some(Some(blob)));
    assert(step.1 == full(end));
    let g1 = g.push(blob);
    assert(carve(g, message, full(from)) == carve(g1, message, full(end)));
    assert(g1.current =~= seq![blob]);
    assert(chunks(message, piece, from) == seq![fragment] + rest);
    if end == size {
        assert(rest =~= Seq::<FragmentView>::empty());
        assert(carve(g1, message, full(end)) == (g1, full(end), true));
        assert(g1.finish().sent =~= g.sent + single_packets(seq![fragment] + rest));
    } else {
        assert(fragment.data.len() == piece);
        assert(packet_wire(g1.current).len() == g.mtu);
        assert(g1.space_left() == 0);
        assert(g1.fragment_room() == 0);
        let g2 = g1.flush();
        assert(carve(g1, message, full(end)) == carve(g2, message, full(end)));
        lemma_carve_chunks(g2, message, end);
        assert(g2.sent + single_packets(rest) =~= g.sent + single_packets(seq![fragment] + rest));
    }
}

/// An incoming message that holds the first `from` bytes of a payload and
/// is fed the fragments of the rest accepts them all and ends complete, with
/// the payload.
pub proof fn lemma_feed_chunks(
    message: SendMessageView,
    piece: int,
    from: int,
    incoming: ReceiveMessageView,
    time: u128,
)
    requires
        message.wf(),
        piece > 0,
        0 <= from <= message.data.len(),
        incoming.data.len() == message.data.len(),
        incoming.delivered == full(from),
        forall|i: int| 0 <= i < from ==> incoming.data[i] == message.data[i],
    ensures
        feed(incoming, time, chunks(message, piece, from)).is_some(),
        feed(incoming, time, chunks(message, piece, from)).unwrap().data == message.data,
        feed(incoming, time, chunks(message, piece, from)).unwrap().delivered == full(
            message.data.len() as int,
        ),
        feed(incoming, time, chunks(message, piece, from)).unwrap().reliable == incoming.reliable,
        feed(incoming, time, chunks(message, piece, from)).unwrap().fragmentation_id
            == incoming.fragmentation_id,
    decreases message.data.len() - from,
{
    let size = message.data.len() as int;
    let all = chunks(message, piece, from);
    if from >= size {
        assert(all =~= Seq::<FragmentView>::empty());
        assert(incoming.data =~= message.data);
    } else {
        let end = if from + piece < size {
            from + piece
        } else {
            size
        };
        let fragment = message.fragment(from, end);
        let rest = chunks(message, piece, end);
        assert(all == seq![fragment] + rest);
        assert(all[0] == fragment);
        assert(all.subrange(1, all.len() as int) =~= rest);
        assert(incoming.accepts(fragment));
        let next = incoming.add(time, fragment);
        lemma_extend_prefix(from, end, size);
        assert(next.delivered == full(end));
        assert forall|i: int| 0 <= i < end implies next.data[i] == message.data[i] by {
            if i >= from {
                assert(fragment.data[i - from] == message.data[i]);
            }
        }
        lemma_feed_chunks(message, piece, end, next, time);
    }
}

/// The number of fragments that carry `size - from` bytes in pieces of
/// `piece` bytes: the quotient, rounded up.
pub proof fn lemma_chunk_count(message: SendMessageView, piece: int, from: int)
    requires
        piece > 0,
        0 <= from <= message.data.len(),
    ensures
        chunks(message, piece, from).len() == (message.data.len() - from + piece - 1) / piece,
    decreases message.data.len() - from,
{
    let size = message.data.len() as int;
    if from >= size {
        assert((piece - 1) / piece == 0) by (nonlinear_arith)
            requires
                piece > 0,
        ;
    } else {
        let end = if from + piece < size {
            from + piece
        } else {
            size
        };
        lemma_chunk_count(message, piece, end);
        let left = size - from;
        if from + piece < size {
            assert((left + piece - 1) / piece == (left - piece + piece - 1) / piece + 1) by (nonlinear_arith)
                requires
                    piece > 0,
                    left > piece,
            ;
        } else {
            assert((left + piece - 1) / piece == 1 && (piece - 1) / piece == 0) by (nonlinear_arith)
                requires
                    piece > 0,
                    0 < left <= piece,
            ;
        }
    }
}

/// A message of `L > 0` bytes that is sent in one wave from an empty packet
/// with an MTU of `M >= 14` bytes goes out as `ceil(L / (M - 13))`
/// fragments, one in each packet, and a receiver that is handed the
/// fragments in order accepts them all and ends with a complete message that
/// holds the payload.
pub proof fn law_lossless_transfer(
    message: SendMessageView,
    mtu: u16,
    sent_packets: u64,
    sent_bytes: u64,
    time: u128,
)
    requires
        message.wf(),
        message.delivered == Seq::<(int, int)>::empty(),
        message.data.len() > 0,
        mtu >= 14,
    ensures
        ({
            let wave = carve(
                GrouperView::new(mtu, sent_packets, sent_bytes),
                message,
                message.delivered,
            );
            let fragments = chunks(message, mtu - 13, 0);
            let received = feed(ReceiveMessageView::blank(fragments[0]), time, fragments);
            &&& wave.2
            &&& wave.0.finish().sent == single_packets(fragments)
            &&& fragments.len() == (message.data.len() + mtu - 14) / (mtu - 13)
            &&& received.is_some()
            &&& received.unwrap().complete()
            &&& received.unwrap().data == message.data
            &&& received.unwrap().reliable == message.reliable.is_some()
            &&& received.unwrap().fragmentation_id == message.fragmentation_id
        }),
{
    let g = GrouperView::new(mtu, sent_packets, sent_bytes);
    let fragments = chunks(message, mtu - 13, 0);
    assert(full(0) =~= message.delivered);
    lemma_carve_chunks(g, message, 0);
    assert(g.sent + single_packets(fragments) =~= single_packets(fragments));
    lemma_chunk_count(message, mtu - 13, 0);
    let first = fragments[0];
    let blank = ReceiveMessageView::blank(first);
    assert(first.total_size == message.data.len());
    lemma_feed_chunks(message, mtu - 13, 0, blank, time);
}

/// The message after the ranges are recorded as delivered, one after the other.
pub open spec fn deliver_all(message: SendMessageView, ranges: Seq<(int, int)>) -> SendMessageView
    decreases ranges.len(),
{
    if ranges.len() == 0 {
        message
    } else {
        deliver_all(message, ranges.drop_last()).deliver(ranges.last().0, ranges.last().1)
    }
}

/// Recording ranges keeps a message well-formed, and delivers exactly the
/// bytes of the payload that were delivered or lie in one of the ranges.
pub proof fn lemma_deliver_all(message: SendMessageView, ranges: Seq<(int, int)>)
    requires
        message.wf(),
    ensures
        deliver_all(message, ranges).wf(),
        deliver_all(message, ranges).data == message.data,
        deliver_all(message, ranges).reliable == message.reliable,
        deliver_all(message, ranges).fragmentation_id == message.fragmentation_id,
        forall|i: int| #[trigger]
            covered(deliver_all(message, ranges).delivered, i) <==> covered(message.delivered, i)
                || (0 <= i < message.data.len() && covered(ranges, i)),
    decreases ranges.len(),
{
    let size = message.data.len() as int;
    let all = deliver_all(message, ranges);
    if ranges.len() > 0 {
        let init = ranges.drop_last();
        let last = ranges.last();
        let before = deliver_all(message, init);
        lemma_deliver_all(message, init);
        lemma_inserted_union(before.delivered, size, last.0, last.1);
        assert forall|i: int| #[trigger]
            covered(all.delivered, i) <==> covered(message.delivered, i) || (0 <= i < size
                && covered(ranges, i)) by {
            if covered(init, i) {
                let k = choose|k: int| 0 <= k < init.len() && (#[trigger] init[k]).0 <= i < init[k].1;
                assert(ranges[k] == init[k]);
            }
            if last.0 <= i < last.1 {
                assert(ranges[ranges.len() - 1] == last);
            }
            if covered(ranges, i) {
                let k = choose|k: int|
                    0 <= k < ranges.len() && (#[trigger] ranges[k]).0 <= i < ranges[k].1;
                if k < init.len() {
                    assert(init[k] == ranges[k]);
                }
            }
        }
    }
}

/// Once every byte of a message is delivered or acknowledged, in whatever
/// order and however often, the message is delivered.
pub proof fn law_acknowledged_is_delivered(message: SendMessageView, ranges: Seq<(int, int)>)
    requires
        message.wf(),
        message.data.len() > 0,
        forall|i: int|
            0 <= i < message.data.len() ==> covered(message.delivered, i) || covered(ranges, i),
    ensures
        deliver_all(message, ranges).finished(),
{
    let all = deliver_all(message, ranges);
    lemma_deliver_all(message, ranges);
    lemma_finished(all.delivered, message.data.len() as int);
    assert forall|i: int| 0 <= i < message.data.len() implies #[trigger] covered(
        all.delivered,
        i,
    ) by {}
}

/// All blobs that a packer holds, in the order in which they were added.
pub open spec fn stream(g: GrouperView) -> Seq<BlobView> {
    g.sent.flatten() + g.current
}

/// Whether `after` is `before` and then fragments only.
pub open spec fn grows_by_fragments(before: Seq<BlobView>, after: Seq<BlobView>) -> bool {
    &&& before.len() <= after.len()
    &&& forall|k: int| 0 <= k < before.len() ==> #[trigger] after[k] == before[k]
    &&& forall|k: int| before.len() <= k < after.len() ==> (#[trigger] after[k]) is Fragment
}

/// To send a packet off changes neither the blobs nor their order.
pub proof fn lemma_flush_keeps_stream(g: GrouperView)
    ensures
        stream(g.flush()) == stream(g),
        g.flush().mtu == g.mtu,
        g.flush().space_left() == if g.mtu > 2 {
            g.mtu - 2
        } else {
            0
        },
{
    g.sent.lemma_flatten_push(g.current);
    assert(stream(g.flush()) =~= stream(g));
}

/// A wave keeps the MTU and the canonical form of its ranges, adds
/// fragments and nothing else, and goes through where the MTU is at least
/// fourteen bytes.
pub proof fn lemma_carve(g: GrouperView, message: SendMessageView, wave: Seq<(int, int)>)
    requires
        message.wf(),
        canonical(wave, message.data.len() as int),
    ensures
        carve(g, message, wave).0.mtu == g.mtu,
        canonical(carve(g, message, wave).1, message.data.len() as int),
        grows_by_fragments(stream(g), stream(carve(g, message, wave).0)),
        g.mtu >= 14 ==> carve(g, message, wave).2,
    decreases wave_remaining(wave, message.data.len() as int), g.current.len(),
{
    let size = message.data.len() as int;
    let available = g.fragment_room() as u16;
    let step = spec_create_blob(message, wave, available);
    match step.0 {
        None => {},
        Some(None) => {
            if g.current.len() == 0 {
                assert(g.current =~= Seq::<BlobView>::empty());
            } else {
                lemma_flush_keeps_stream(g);
                lemma_carve(g.flush(), message, wave);
            }
        },
        Some(Some(blob)) => {
            lemma_carve_progress(wave, size, available);
            let next = g.push(blob);
            lemma_carve(next, message, step.1);
            assert(stream(next) =~= stream(g).push(blob));
            let end = stream(carve(g, message, wave).0);
            assert forall|k: int| 0 <= k < stream(g).len() implies #[trigger] end[k] == stream(
                g,
            )[k] by {
                assert(end[k] == stream(next)[k]);
            }
            assert forall|k: int| stream(g).len() <= k < end.len() implies (
            #[trigger] end[k]) is Fragment by {
                if k == stream(g).len() {
                    assert(end[k] == stream(next)[k]);
                }
            }
        },
    }
}

/// The waves of the messages keep the MTU, the number of the messages, their
/// identifiers and their well-formedness, add fragments and nothing else,
/// and go through where the MTU is at least fourteen bytes.
pub proof fn lemma_pack_from(
    g: GrouperView,
    messages: Seq<SendMessageView>,
    time: u128,
    resend_delay: Option<u128>,
    i: int,
)
    requires
        forall|k: int| 0 <= k < messages.len() ==> (#[trigger] messages[k]).wf(),
        0 <= i <= messages.len(),
    ensures
        pack_from(g, messages, time, resend_delay, i).0.mtu == g.mtu,
        pack_from(g, messages, time, resend_delay, i).1.len() == messages.len(),
        forall|k: int|
            0 <= k < messages.len() ==> (#[trigger] pack_from(
                g,
                messages,
                time,
                resend_delay,
                i,
            ).1[k]).wf(),
        forall|k: int|
            0 <= k < messages.len() ==> (#[trigger] pack_from(
                g,
                messages,
                time,
                resend_delay,
                i,
            ).1[k]).fragmentation_id == messages[k].fragmentation_id,
        grows_by_fragments(stream(g), stream(pack_from(g, messages, time, resend_delay, i).0)),
        g.mtu >= 14 ==> pack_from(g, messages, time, resend_delay, i).2,
    decreases messages.len() - i,
{
    if i < messages.len() {
        if !spec_is_due(messages[i].reliable, time, resend_delay) {
            lemma_pack_from(g, messages, time, resend_delay, i + 1);
        } else {
            assert(messages[i].wf());
            lemma_carve(g, messages[i], messages[i].delivered);
            let (next, wave, ok) = carve(g, messages[i], messages[i].delivered);
            if ok {
                let updated = messages.update(i, after_wave(messages[i], wave, time));
                assert forall|k: int| 0 <= k < updated.len() implies (#[trigger] updated[k]).wf() by {
                    if k != i {
                        assert(messages[k].wf());
                    }
                }
                lemma_pack_from(next, updated, time, resend_delay, i + 1);
                let result = pack_from(g, messages, time, resend_delay, i);
                let end = stream(result.0);
                assert forall|k: int| 0 <= k < stream(g).len() implies #[trigger] end[k] == stream(
                    g,
                )[k] by {
                    assert(end[k] == stream(next)[k]);
                }
                assert forall|k: int| stream(g).len() <= k < end.len() implies (
                #[trigger] end[k]) is Fragment by {
                    if k < stream(next).len() {
                        assert(end[k] == stream(next)[k]);
                    }
                }
                assert forall|k: int| 0 <= k < messages.len() implies (
                #[trigger] result.1[k]).fragmentation_id == messages[k].fragmentation_id by {
                    assert(updated[k].fragmentation_id == messages[k].fragmentation_id);
                }
            }
        }
    }
}

/// A blob that is added keeps the MTU and comes last, and it is added where
/// it fits an empty packet.
pub proof fn lemma_add(g: GrouperView, blob: BlobView)
    ensures
        g.add(blob).0.mtu == g.mtu,
        g.add(blob).1 ==> stream(g.add(blob).0) == stream(g).push(blob),
        blob.wire().len() + 2 <= g.mtu ==> g.add(blob).1,
{
    lemma_flush_keeps_stream(g);
    if g.current.len() == 0 {
        assert(g.current =~= Seq::<BlobView>::empty());
    }
    let (next, ok) = g.ensure_space(blob.wire().len() as int);
    if ok {
        assert(stream(next.push(blob)) =~= stream(next).push(blob));
    }
}

/// Blobs that are added keep the MTU and come last in their order, and they
/// are added where each fits an empty packet.
pub proof fn lemma_add_all(g: GrouperView, blobs: Seq<BlobView>, i: int)
    requires
        0 <= i <= blobs.len(),
    ensures
        g.add_all(blobs, i).0.mtu == g.mtu,
        g.add_all(blobs, i).1 ==> stream(g.add_all(blobs, i).0) == stream(g) + blobs.subrange(
            i,
            blobs.len() as int,
        ),
        (forall|k: int| i <= k < blobs.len() ==> (#[trigger] blobs[k]).wire().len() + 2 <= g.mtu)
            ==> g.add_all(blobs, i).1,
    decreases blobs.len() - i,
{
    if i < blobs.len() {
        lemma_add(g, blobs[i]);
        let (next, ok) = g.add(blobs[i]);
        if ok {
            lemma_add_all(next, blobs, i + 1);
            if next.add_all(blobs, i + 1).1 {
                assert(stream(g).push(blobs[i]) + blobs.subrange(i + 1, blobs.len() as int)
                    =~= stream(g) + blobs.subrange(i, blobs.len() as int));
            }
        }
        if forall|k: int| i <= k < blobs.len() ==> (#[trigger] blobs[k]).wire().len() + 2 <= g.mtu {
            assert(blobs[i].wire().len() + 2 <= g.mtu);
        }
    } else {
        assert(stream(g) + blobs.subrange(i, blobs.len() as int) =~= stream(g));
    }
}

/// The blobs that a tick of an established connection sends behind its
/// fragments: the heartbeat where one is due, the heartbeat responses, the
/// acknowledgements, and the disconnect where the connection is to be closed.
pub open spec fn control_blobs(c: ConnectionView, time: u128, config: Config) -> Seq<BlobView> {
    (if c.heartbeat_due(time, config.heartbeat_interval) {
        seq![BlobView::Heartbeat(heartbeat_millis(time))]
    } else {
        Seq::empty()
    }) + c.heartbeat_responses.map_values(response_blob()) + c.acknowledgements.map_values(
        acknowledgement_blob(),
    ) + (if c.drop_connection {
        seq![BlobView::Disconnect]
    } else {
        Seq::empty()
    })
}

/// The fragments of a tick: what the waves of the messages that are due add
/// to an empty packer.
pub open spec fn tick_fragments(
    c: ConnectionView,
    time: u128,
    config: Config,
    delays: Option<Delays>,
) -> Seq<BlobView> {
    stream(
        pack_from(
            GrouperView::new(config.mtu, c.sent_packets, c.sent_bytes),
            c.send_messages,
            time,
            match delays {
                Some(d) => Some(d.resend),
                None => None,
            },
            0,
        ).0,
    )
}

/// The packer after the blobs of a tick that are no fragments, and whether
/// all of them found room.
pub open spec fn pack_control(c: ConnectionView, g: GrouperView, time: u128, config: Config) -> (
    GrouperView,
    bool,
) {
    let (c2, g2, ok2) = c.pack_heartbeat(g, time, config.heartbeat_interval);
    let (c3, g3, ok3) = c2.pack_responses(g2);
    let (c4, g4, ok4) = c3.pack_acknowledgements(g3);
    let (g5, ok5) = c4.pack_disconnect(g4);
    (g5, ok2 && ok3 && ok4 && ok5)
}

/// Where the blobs of a tick that are no fragments all find room, they
/// follow what the packer held, in their order.
proof fn lemma_pack_control(c: ConnectionView, g: GrouperView, time: u128, config: Config)
    requires
        pack_control(c, g, time, config).1,
    ensures
        stream(pack_control(c, g, time, config).0) == stream(g) + control_blobs(c, time, config),
{
    let (c2, g2, ok2) = c.pack_heartbeat(g, time, config.heartbeat_interval);
    let (c3, g3, ok3) = c2.pack_responses(g2);
    let (c4, g4, ok4) = c3.pack_acknowledgements(g3);
    let (g5, ok5) = c4.pack_disconnect(g4);
    let heartbeat = BlobView::Heartbeat(heartbeat_millis(time));
    let responses = c.heartbeat_responses.map_values(response_blob());
    let acks = c.acknowledgements.map_values(acknowledgement_blob());
    let first = if c.heartbeat_due(time, config.heartbeat_interval) {
        seq![heartbeat]
    } else {
        Seq::<BlobView>::empty()
    };
    let last = if c.drop_connection {
        seq![BlobView::Disconnect]
    } else {
        Seq::<BlobView>::empty()
    };
    assert(stream(g2) =~= stream(g) + first) by {
        lemma_add(g, heartbeat);
    }
    assert(stream(g3) == stream(g2) + responses) by {
        assert(c2.heartbeat_responses == c.heartbeat_responses);
        lemma_add_all(g2, responses, 0);
        assert(responses.subrange(0, responses.len() as int) =~= responses);
    }
    assert(stream(g4) == stream(g3) + acks) by {
        assert(c3.acknowledgements == c.acknowledgements);
        lemma_add_all(g3, acks, 0);
        assert(acks.subrange(0, acks.len() as int) =~= acks);
    }
    assert(stream(g5) =~= stream(g4) + last) by {
        assert(c4.drop_connection == c.drop_connection);
        lemma_add(g4, BlobView::Disconnect);
    }
    assert(control_blobs(c, time, config) == first + responses + acks + last);
    assert(stream(g5) =~= stream(g) + (first + responses + acks + last));
}

/// None of the blobs of a tick that follow the fragments is a fragment.
proof fn lemma_control_holds_no_fragment(c: ConnectionView, time: u128, config: Config)
    ensures
        forall|k: int|
            0 <= k < control_blobs(c, time, config).len() ==> !((#[trigger] control_blobs(
                c,
                time,
                config,
            )[k]) is Fragment),
{
    let control = control_blobs(c, time, config);
    let heartbeat = BlobView::Heartbeat(heartbeat_millis(time));
    let responses = c.heartbeat_responses.map_values(response_blob());
    let acks = c.acknowledgements.map_values(acknowledgement_blob());
    let first = if c.heartbeat_due(time, config.heartbeat_interval) {
        seq![heartbeat]
    } else {
        Seq::<BlobView>::empty()
    };
    let last = if c.drop_connection {
        seq![BlobView::Disconnect]
    } else {
        Seq::<BlobView>::empty()
    };
    assert(control == first + responses + acks + last);
    assert forall|k: int| 0 <= k < control.len() implies !((#[trigger] control[k]) is Fragment) by {
        let a = first.len();
        let b = a + responses.len();
        let d = b + acks.len();
        if k < a {
            assert(control[k] == first[k]);
        } else if k < b {
            assert(control[k] == responses[k - a]);
        } else if k < d {
            assert(control[k] == acks[k - b]);
        } else {
            assert(control[k] == last[k - d]);
        }
    }
}

/// The blobs of a tick that does not fail go out in this order: fragments
/// first, then the heartbeat, the heartbeat responses, the acknowledgements
/// and the disconnect, each of these exactly as often as it is owed.
pub proof fn law_tick_order(c: ConnectionView, time: u128, config: Config, delays: Option<Delays>)
    requires
        c.wf(),
        c.update_established(time, config, delays).2,
    ensures
        ({
            let blobs = c.update_established(time, config, delays).1.flatten();
            let control = control_blobs(c, time, config);
            &&& blobs == tick_fragments(c, time, config, delays) + control
            &&& control.len() <= blobs.len()
            &&& blobs.subrange(blobs.len() - control.len(), blobs.len() as int) == control
            &&& forall|k: int|
                0 <= k < blobs.len() - control.len() ==> (#[trigger] blobs[k]) is Fragment
            &&& forall|k: int| 0 <= k < control.len() ==> !((#[trigger] control[k]) is Fragment)
        }),
{
    let g0 = GrouperView::new(config.mtu, c.sent_packets, c.sent_bytes);
    let resend_delay = match delays {
        Some(d) => Some(d.resend),
        None => None,
    };
    let (c1, g1, ok1) = c.pack_fragments(g0, time, resend_delay);
    let (g5, ok) = pack_control(c1, g1, time, config);
    assert(ok1 && ok);
    assert(c.update_established(time, config, delays).1 == g5.finish().sent);
    let fragments = stream(g1);
    assert(grows_by_fragments(Seq::<BlobView>::empty(), fragments)) by {
        lemma_pack_from(g0, c.send_messages, time, resend_delay, 0);
        assert(g0.sent.flatten() =~= Seq::<BlobView>::empty());
        assert(stream(g0) =~= Seq::<BlobView>::empty());
    }
    lemma_pack_control(c1, g1, time, config);
    let control = control_blobs(c, time, config);
    assert(control_blobs(c1, time, config) == control);
    assert(fragments == tick_fragments(c, time, config, delays));
    lemma_tail(g5, fragments, control);
    lemma_control_holds_no_fragment(c, time, config);
}

/// The packets in the end hold the blobs of the packer; where these are
/// fragments and then other blobs, the other blobs come last.
proof fn lemma_tail(g: GrouperView, fragments: Seq<BlobView>, control: Seq<BlobView>)
    requires
        stream(g) == fragments + control,
        grows_by_fragments(Seq::<BlobView>::empty(), fragments),
    ensures
        ({
            let blobs = g.finish().sent.flatten();
            &&& blobs == fragments + control
            &&& control.len() <= blobs.len()
            &&& blobs.subrange(blobs.len() - control.len(), blobs.len() as int) == control
            &&& forall|k: int|
                0 <= k < blobs.len() - control.len() ==> (#[trigger] blobs[k]) is Fragment
        }),
{
    let packets = g.finish().sent;
    assert(packets.flatten() == stream(g)) by {
        if g.current.len() > 0 {
            g.sent.lemma_flatten_push(g.current);
        } else {
            assert(g.sent.flatten() + g.current =~= g.sent.flatten());
        }
    }
    let blobs = packets.flatten();
    assert(blobs.subrange(blobs.len() - control.len(), blobs.len() as int) =~= control);
    assert forall|k: int| 0 <= k < blobs.len() - control.len() implies (
    #[trigger] blobs[k]) is Fragment by {
        assert(blobs[k] == fragments[k]);
    }
}

/// With an MTU of at least fourteen bytes no tick fails.
pub proof fn law_mtu_suffices(c: ConnectionView, time: u128, config: Config, delays: Option<Delays>)
    requires
        c.wf(),
        config.mtu >= 14,
    ensures
        c.update(time, config, delays).2,
{
    let marked = ConnectionView {
        drop_connection: c.drop_connection || c.timed_out(time, config.timeout_delay),
        ..c
    };
    if marked.last_handshake.is_none() {
        lemma_established_mtu_suffices(marked, time, config, marked.known(delays));
    }
}

/// With an MTU of at least fourteen bytes no tick of an established
/// connection fails.
pub proof fn lemma_established_mtu_suffices(
    c: ConnectionView,
    time: u128,
    config: Config,
    delays: Option<Delays>,
)
    requires
        c.wf(),
        config.mtu >= 14,
    ensures
        c.update_established(time, config, delays).2,
{
    let g0 = GrouperView::new(config.mtu, c.sent_packets, c.sent_bytes);
    let resend_delay = match delays {
        Some(d) => Some(d.resend),
        None => None,
    };
    let (c1, g1, ok1) = c.pack_fragments(g0, time, resend_delay);
    let (c2, g2, ok2) = c1.pack_heartbeat(g1, time, config.heartbeat_interval);
    let (c3, g3, ok3) = c2.pack_responses(g2);
    let (c4, g4, ok4) = c3.pack_acknowledgements(g3);
    let heartbeat = BlobView::Heartbeat(heartbeat_millis(time));
    let responses = c2.heartbeat_responses.map_values(response_blob());
    let acks = c3.acknowledgements.map_values(acknowledgement_blob());
    lemma_pack_from(g0, c.send_messages, time, resend_delay, 0);
    lemma_blob_len(heartbeat);
    lemma_add(g1, heartbeat);
    assert forall|k: int| 0 <= k < responses.len() implies (#[trigger] responses[k]).wire().len()
        + 2 <= g2.mtu by {
        lemma_blob_len(responses[k]);
    }
    lemma_add_all(g2, responses, 0);
    assert forall|k: int| 0 <= k < acks.len() implies (#[trigger] acks[k]).wire().len() + 2
        <= g3.mtu by {
        lemma_blob_len(acks[k]);
    }
    lemma_add_all(g3, acks, 0);
    lemma_blob_len(BlobView::Disconnect);
    lemma_add(g4, BlobView::Disconnect);
}

/// With an MTU of at most thirteen bytes the tick of an established
/// connection fails as soon as a message is due of which a byte is
/// undelivered: no fragment fits.
pub proof fn law_small_mtu_fails(
    c: ConnectionView,
    time: u128,
    config: Config,
    delays: Option<Delays>,
    k: int,
)
    requires
        c.wf(),
        config.mtu <= 13,
        0 <= k < c.send_messages.len(),
        spec_is_due(
            c.send_messages[k].reliable,
            time,
            match delays {
                Some(d) => Some(d.resend),
                None => None,
            },
        ),
        gaps_from(c.send_messages[k].delivered, c.send_messages[k].data.len() as int, 0).len() > 0,
    ensures
        !c.update_established(time, config, delays).2,
        c.update_established(time, config, delays).1 == Seq::<Seq<BlobView>>::empty(),
{
    let g0 = GrouperView::new(config.mtu, c.sent_packets, c.sent_bytes);
    let resend_delay = match delays {
        Some(d) => Some(d.resend),
        None => None,
    };
    lemma_small_mtu_fails(g0, c.send_messages, time, resend_delay, 0, k);
}

/// From an empty packer with an MTU of at most thirteen bytes, the waves fail
/// at or before a message that is due and has a byte undelivered, and
/// nothing is sent.
proof fn lemma_small_mtu_fails(
    g: GrouperView,
    messages: Seq<SendMessageView>,
    time: u128,
    resend_delay: Option<u128>,
    i: int,
    k: int,
)
    requires
        g.mtu <= 13,
        g.current.len() == 0,
        g.sent.len() == 0,
        0 <= i <= k < messages.len(),
        forall|j: int| 0 <= j < messages.len() ==> (#[trigger] messages[j]).wf(),
        spec_is_due(messages[k].reliable, time, resend_delay),
        gaps_from(messages[k].delivered, messages[k].data.len() as int, 0).len() > 0,
    ensures
        !pack_from(g, messages, time, resend_delay, i).2,
        pack_from(g, messages, time, resend_delay, i).0 == g,
    decreases k - i,
{
    assert(g.current =~= Seq::<BlobView>::empty());
    assert(g.fragment_room() <= 10);
    assert(messages[i].wf());
    let m = messages[i];
    let step = spec_create_blob(m, m.delivered, g.fragment_room() as u16);
    if spec_is_due(m.reliable, time, resend_delay) {
        if gaps_from(m.delivered, m.data.len() as int, 0).len() > 0 {
            assert(step.0 == Some(None::<BlobView>));
            assert(carve(g, m, m.delivered) == (g, m.delivered, false));
        } else {
            assert(step.0.is_none());
            assert(carve(g, m, m.delivered) == (g, m.delivered, true));
            let updated = messages.update(i, after_wave(m, m.delivered, time));
            assert forall|j: int| 0 <= j < updated.len() implies (#[trigger] updated[j]).wf() by {
                if j != i {
                    assert(messages[j].wf());
                }
            }
            assert(i < k);
            lemma_small_mtu_fails(g, updated, time, resend_delay, i + 1, k);
        }
    } else {
        assert(i < k);
        lemma_small_mtu_fails(g, messages, time, resend_delay, i + 1, k);
    }
}

/// The number of bytes of the datagrams together.
pub open spec fn total_bytes(datagrams: Seq<Seq<u8>>) -> nat
    decreases datagrams.len(),
{
    if datagrams.len() == 0 {
        0
    } else {
        total_bytes(datagrams.drop_last()) + datagrams.last().len()
    }
}

/// Whether the packer is in order, counting from `packets` packets and
/// `bytes` bytes: every packet that was sent off holds a blob and is no
/// longer than the MTU, the packet that is being filled is no longer than
/// the MTU, and the counters count exactly the packets that were sent off.
pub open spec fn in_order(g: GrouperView, packets: u64, bytes: u64) -> bool {
    &&& forall|k: int|
        0 <= k < g.sent.len() ==> (#[trigger] g.sent[k]).len() > 0 && packet_wire(g.sent[k]).len()
            <= g.mtu
    &&& g.current.len() > 0 ==> packet_wire(g.current).len() <= g.mtu
    &&& g.sent_packets == saturating(packets, g.sent.len() as int)
    &&& g.sent_bytes == saturating(bytes, total_bytes(wire_all(g.sent)) as int)
}

/// To send a packet off keeps the packer in order.
pub proof fn lemma_flush_in_order(g: GrouperView, packets: u64, bytes: u64)
    requires
        in_order(g, packets, bytes),
        g.current.len() > 0,
    ensures
        in_order(g.flush(), packets, bytes),
{
    let next = g.flush();
    assert(wire_all(next.sent).drop_last() =~= wire_all(g.sent));
    assert(wire_all(next.sent).last() == packet_wire(g.current));
    assert forall|k: int| 0 <= k < next.sent.len() implies (#[trigger] next.sent[k]).len() > 0
        && packet_wire(next.sent[k]).len() <= next.mtu by {
        if k < g.sent.len() {
            assert(next.sent[k] == g.sent[k]);
        }
    }
}

/// To add a blob for which there is room keeps the packer in order.
pub proof fn lemma_push_in_order(g: GrouperView, blob: BlobView, packets: u64, bytes: u64)
    requires
        in_order(g, packets, bytes),
        0 < blob.wire().len() <= g.space_left(),
    ensures
        in_order(g.push(blob), packets, bytes),
{
    lemma_packet_wire_push(g.current, blob);
    lemma_blob_len(blob);
    if g.current.len() == 0 {
        assert(g.current =~= Seq::<BlobView>::empty());
    }
}

/// A wave keeps the packer in order.
pub proof fn lemma_carve_in_order(
    g: GrouperView,
    message: SendMessageView,
    wave: Seq<(int, int)>,
    packets: u64,
    bytes: u64,
)
    requires
        message.wf(),
        canonical(wave, message.data.len() as int),
        in_order(g, packets, bytes),
    ensures
        in_order(carve(g, message, wave).0, packets, bytes),
    decreases wave_remaining(wave, message.data.len() as int), g.current.len(),
{
    let size = message.data.len() as int;
    let available = g.fragment_room() as u16;
    let step = spec_create_blob(message, wave, available);
    match step.0 {
        None => {},
        Some(None) => {
            if g.current.len() > 0 {
                lemma_flush_in_order(g, packets, bytes);
                lemma_carve_in_order(g.flush(), message, wave, packets, bytes);
            }
        },
        Some(Some(blob)) => {
            lemma_carve_progress(wave, size, available);
            lemma_blob_len(blob);
            let gaps = gaps_from(wave, size, 0);
            let end = carve_end(gaps[0], available as int);
            assert(blob == BlobView::Fragment(message.fragment(gaps[0].0, end)));
            assert(message.fragment(gaps[0].0, end).data.len() == end - gaps[0].0);
            lemma_push_in_order(g, blob, packets, bytes);
            lemma_carve_in_order(g.push(blob), message, step.1, packets, bytes);
        },
    }
}

/// The waves of the messages keep the packer in order.
pub proof fn lemma_pack_from_in_order(
    g: GrouperView,
    messages: Seq<SendMessageView>,
    time: u128,
    resend_delay: Option<u128>,
    i: int,
    packets: u64,
    bytes: u64,
)
    requires
        forall|k: int| 0 <= k < messages.len() ==> (#[trigger] messages[k]).wf(),
        0 <= i <= messages.len(),
        in_order(g, packets, bytes),
    ensures
        in_order(pack_from(g, messages, time, resend_delay, i).0, packets, bytes),
    decreases messages.len() - i,
{
    if i < messages.len() {
        if !spec_is_due(messages[i].reliable, time, resend_delay) {
            lemma_pack_from_in_order(g, messages, time, resend_delay, i + 1, packets, bytes);
        } else {
            assert(messages[i].wf());
            lemma_carve(g, messages[i], messages[i].delivered);
            lemma_carve_in_order(g, messages[i], messages[i].delivered, packets, bytes);
            let (next, wave, ok) = carve(g, messages[i], messages[i].delivered);
            if ok {
                let updated = messages.update(i, after_wave(messages[i], wave, time));
                assert forall|k: int| 0 <= k < updated.len() implies (#[trigger] updated[k]).wf() by {
                    if k != i {
                        assert(messages[k].wf());
                    }
                }
                lemma_pack_from_in_order(next, updated, time, resend_delay, i + 1, packets, bytes);
            }
        }
    }
}

/// To add a blob, or to fail to, keeps the packer in order.
pub proof fn lemma_add_in_order(g: GrouperView, blob: BlobView, packets: u64, bytes: u64)
    requires
        in_order(g, packets, bytes),
    ensures
        in_order(g.add(blob).0, packets, bytes),
{
    lemma_blob_len(blob);
    let needed = blob.wire().len() as int;
    if g.space_left() >= needed {
        lemma_push_in_order(g, blob, packets, bytes);
    } else if g.current.len() > 0 {
        lemma_flush_in_order(g, packets, bytes);
        if g.flush().space_left() >= needed {
            lemma_push_in_order(g.flush(), blob, packets, bytes);
        }
    }
}

/// To add blobs, up to the first that does not fit, keeps the packer in order.
pub proof fn lemma_add_all_in_order(
    g: GrouperView,
    blobs: Seq<BlobView>,
    i: int,
    packets: u64,
    bytes: u64,
)
    requires
        0 <= i <= blobs.len(),
        in_order(g, packets, bytes),
    ensures
        in_order(g.add_all(blobs, i).0, packets, bytes),
    decreases blobs.len() - i,
{
    if i < blobs.len() {
        lemma_add_in_order(g, blobs[i], packets, bytes);
        let (next, ok) = g.add(blobs[i]);
        if ok {
            lemma_add_all_in_order(next, blobs, i + 1, packets, bytes);
        }
    }
}

/// The packer of a tick is in order behind every step of the tick.
proof fn lemma_tick_in_order(c: ConnectionView, time: u128, config: Config, delays: Option<Delays>)
    requires
        c.wf(),
    ensures
        ({
            let p = c.sent_packets;
            let b = c.sent_bytes;
            let g0 = GrouperView::new(config.mtu, p, b);
            let resend_delay = match delays {
                Some(d) => Some(d.resend),
                None => None,
            };
            let (c1, g1, ok1) = c.pack_fragments(g0, time, resend_delay);
            let (c2, g2, ok2) = c1.pack_heartbeat(g1, time, config.heartbeat_interval);
            let (c3, g3, ok3) = c2.pack_responses(g2);
            let (c4, g4, ok4) = c3.pack_acknowledgements(g3);
            let (g5, ok5) = c4.pack_disconnect(g4);
            &&& in_order(g1, p, b)
            &&& in_order(g2, p, b)
            &&& in_order(g3, p, b)
            &&& in_order(g4, p, b)
            &&& in_order(g5, p, b)
            &&& in_order(g5.finish(), p, b)
        }),
{
    let p = c.sent_packets;
    let b = c.sent_bytes;
    let g0 = GrouperView::new(config.mtu, p, b);
    let resend_delay = match delays {
        Some(d) => Some(d.resend),
        None => None,
    };
    let (c1, g1, ok1) = c.pack_fragments(g0, time, resend_delay);
    let (c2, g2, ok2) = c1.pack_heartbeat(g1, time, config.heartbeat_interval);
    let (c3, g3, ok3) = c2.pack_responses(g2);
    let (c4, g4, ok4) = c3.pack_acknowledgements(g3);
    let (g5, ok5) = c4.pack_disconnect(g4);
    assert(in_order(g0, p, b)) by {
        assert(wire_all(g0.sent) =~= Seq::<Seq<u8>>::empty());
    }
    assert(in_order(g1, p, b)) by {
        lemma_pack_from_in_order(g0, c.send_messages, time, resend_delay, 0, p, b);
    }
    assert(in_order(g2, p, b)) by {
        lemma_add_in_order(g1, BlobView::Heartbeat(heartbeat_millis(time)), p, b);
    }
    assert(in_order(g3, p, b)) by {
        lemma_add_all_in_order(g2, c2.heartbeat_responses.map_values(response_blob()), 0, p, b);
    }
    assert(in_order(g4, p, b)) by {
        lemma_add_all_in_order(g3, c3.acknowledgements.map_values(acknowledgement_blob()), 0, p, b);
    }
    assert(in_order(g5, p, b)) by {
        lemma_add_in_order(g4, BlobView::Disconnect, p, b);
    }
    assert(in_order(g5.finish(), p, b)) by {
        if g5.current.len() > 0 {
            lemma_flush_in_order(g5, p, b);
        }
    }
}

/// What a packer in order says of the packets that it has sent off.
proof fn lemma_in_order_sent(g: GrouperView, packets: u64, bytes: u64)
    requires
        in_order(g, packets, bytes),
    ensures
        forall|k: int|
            0 <= k < g.sent.len() ==> (#[trigger] g.sent[k]).len() > 0 && packet_wire(
                g.sent[k],
            ).len() <= g.mtu,
        g.sent_packets == saturating(packets, g.sent.len() as int),
        g.sent_bytes == saturating(bytes, total_bytes(wire_all(g.sent)) as int),
{
}

/// Every packet that the tick of an established connection hands out,
/// whether the tick fails or not, holds a blob and is no longer than the
/// MTU, and the connection's counters go up by the number of these packets
/// and by the number of their bytes.
#[verifier::rlimit(40)]
pub proof fn law_tick_packets(c: ConnectionView, time: u128, config: Config, delays: Option<Delays>)
    requires
        c.wf(),
    ensures
        ({
            let (next, sent, ok) = c.update_established(time, config, delays);
            &&& forall|k: int|
                0 <= k < sent.len() ==> (#[trigger] sent[k]).len() > 0 && packet_wire(
                    sent[k],
                ).len() <= config.mtu
            &&& next.sent_packets == saturating(c.sent_packets, sent.len() as int)
            &&& next.sent_bytes == saturating(c.sent_bytes, total_bytes(wire_all(sent)) as int)
        }),
{
    let p = c.sent_packets;
    let b = c.sent_bytes;
    let g0 = GrouperView::new(config.mtu, p, b);
    let resend_delay = match delays {
        Some(d) => Some(d.resend),
        None => None,
    };
    let (c1, g1, ok1) = c.pack_fragments(g0, time, resend_delay);
    let (c2, g2, ok2) = c1.pack_heartbeat(g1, time, config.heartbeat_interval);
    let (c3, g3, ok3) = c2.pack_responses(g2);
    let (c4, g4, ok4) = c3.pack_acknowledgements(g3);
    let (g5, ok5) = c4.pack_disconnect(g4);
    let result = c.update_established(time, config, delays);
    lemma_tick_in_order(c, time, config, delays);
    lemma_mtu_kept(c, time, config, delays);
    let last = if !ok1 {
        g1
    } else if !ok2 {
        g2
    } else if !ok3 {
        g3
    } else if !ok4 {
        g4
    } else if !ok5 {
        g5
    } else {
        g5.finish()
    };
    assert(result.1 == last.sent);
    assert(result.0.sent_packets == last.sent_packets);
    assert(result.0.sent_bytes == last.sent_bytes);
    assert(last.mtu == config.mtu);
    lemma_in_order_sent(last, p, b);
}

/// The packer of a tick keeps the configured MTU.
proof fn lemma_mtu_kept(c: ConnectionView, time: u128, config: Config, delays: Option<Delays>)
    requires
        c.wf(),
    ensures
        ({
            let g0 = GrouperView::new(config.mtu, c.sent_packets, c.sent_bytes);
            let resend_delay = match delays {
                Some(d) => Some(d.resend),
                None => None,
            };
            let (c1, g1, ok1) = c.pack_fragments(g0, time, resend_delay);
            let (c2, g2, ok2) = c1.pack_heartbeat(g1, time, config.heartbeat_interval);
            let (c3, g3, ok3) = c2.pack_responses(g2);
            let (c4, g4, ok4) = c3.pack_acknowledgements(g3);
            let (g5, ok5) = c4.pack_disconnect(g4);
            &&& g1.mtu == config.mtu
            &&& g2.mtu == config.mtu
            &&& g3.mtu == config.mtu
            &&& g4.mtu == config.mtu
            &&& g5.mtu == config.mtu
            &&& g5.finish().mtu == config.mtu
        }),
{
    let g0 = GrouperView::new(config.mtu, c.sent_packets, c.sent_bytes);
    let resend_delay = match delays {
        Some(d) => Some(d.resend),
        None => None,
    };
    let (c1, g1, ok1) = c.pack_fragments(g0, time, resend_delay);
    let (c2, g2, ok2) = c1.pack_heartbeat(g1, time, config.heartbeat_interval);
    let (c3, g3, ok3) = c2.pack_responses(g2);
    let (c4, g4, ok4) = c3.pack_acknowledgements(g3);
    lemma_pack_from(g0, c.send_messages, time, resend_delay, 0);
    lemma_add(g1, BlobView::Heartbeat(heartbeat_millis(time)));
    lemma_add_all(g2, c2.heartbeat_responses.map_values(response_blob()), 0);
    lemma_add_all(g3, c3.acknowledgements.map_values(acknowledgement_blob()), 0);
    lemma_add(g4, BlobView::Disconnect);
}

/// The counters of a connection count its datagrams: a tick, whether it
/// fails or not, raises them by the number of the datagrams that it hands
/// out and by the number of their bytes. Every datagram of an established
/// connection is no longer than the MTU.
pub proof fn law_counters(c: ConnectionView, time: u128, config: Config, delays: Option<Delays>)
    requires
        c.wf(),
    ensures
        ({
            let (next, datagrams, ok) = c.update(time, config, delays);
            &&& next.sent_packets == saturating(c.sent_packets, datagrams.len() as int)
            &&& next.sent_bytes == saturating(c.sent_bytes, total_bytes(datagrams) as int)
            &&& c.last_handshake.is_none() ==> forall|k: int|
                0 <= k < datagrams.len() ==> 0 < (#[trigger] datagrams[k]).len() <= config.mtu
        }),
{
    let marked = ConnectionView {
        drop_connection: c.drop_connection || c.timed_out(time, config.timeout_delay),
        ..c
    };
    if marked.last_handshake.is_some() {
        lemma_handshake_round_trip(config.protocol_id);
        let datagrams = marked.update_pending(time, config).1;
        if datagrams.len() > 0 {
            assert(datagrams.drop_last() =~= Seq::<Seq<u8>>::empty());
            assert(total_bytes(datagrams) == 16) by {
                reveal_with_fuel(total_bytes, 2);
            }
        }
    } else {
        let known = marked.known(delays);
        law_tick_packets(marked, time, config, known);
        let sent = marked.update_established(time, config, known).1;
        let datagrams = wire_all(sent);
        assert forall|k: int| 0 <= k < datagrams.len() implies 0 < (#[trigger] datagrams[k]).len()
            <= config.mtu by {
            assert(sent[k].len() > 0);
            lemma_nonempty_packet(sent[k]);
        }
    }
}

/// A packet that holds a blob has bytes.
proof fn lemma_nonempty_packet(blobs: Seq<BlobView>)
    requires
        blobs.len() > 0,
    ensures
        packet_wire(blobs).len() > 0,
{
    lemma_blob_len(blobs[0]);
}

} // verus!
