//! What holds of the rounds of an endpoint: whom its events name, and how a
//! connection is closed.

use crate::connection::{lemma_filter_member, lemma_filter_pairwise, ConnectionView};
use crate::laws::{lemma_first_position_exists, lemma_update_keeps};
use crate::socket::{
    closed_event, closing, connected_to, delays_at, distinct_peers, index_of, received_event,
    staying, ConnectionUpdateView, SocketEventView, SocketView,
};
use crate::{Address, Delays, Error};
use vstd::prelude::*;

verus! {

/// Whether an event names the peer `addr`.
pub open spec fn names(event: SocketEventView, addr: Address) -> bool {
    match event {
        SocketEventView::Received { addr: peer, .. } => peer == addr,
        SocketEventView::NewConnection { addr: peer } => peer == addr,
        SocketEventView::ConnectionRequest { addr: peer } => peer == addr,
        SocketEventView::ClosedConnection { addr: peer } => peer == addr,
        SocketEventView::Error(Error::MalformedPacket { addr: peer }) => peer == addr,
        SocketEventView::Error(Error::MtuTooSmall) => false,
    }
}

/// Whether an update is for the peer `addr` or holds an event that names it.
pub open spec fn update_names(update: ConnectionUpdateView, addr: Address) -> bool {
    update.addr == addr || exists|k: int|
        0 <= k < update.events.len() && names(#[trigger] update.events[k], addr)
}

/// An endpoint has a connection with a peer exactly where one of its
/// connections has the peer's address.
pub proof fn lemma_connected(s: SocketView, addr: Address)
    ensures
        s.is_connected(addr) <==> exists|k: int|
            0 <= k < s.connections.len() && (#[trigger] s.connections[k]).addr == addr,
        s.is_connected(addr) ==> s.connection(addr).addr == addr,
{
    lemma_first_position_exists(s.connections, connected_to(addr));
    let i = index_of(s.connections, addr);
    if i < s.connections.len() {
        assert(s.connections[i].addr == addr);
    } else {
        assert forall|k: int| 0 <= k < s.connections.len() implies (#[trigger] s.connections[k]).addr
            != addr by {
            assert(!connected_to(addr)(s.connections[k]));
        }
    }
}

/// The ticks from the connection at `index` on keep the connections' number
/// and peers, and keep a connection that is to be closed so. There is one
/// update for each of these connections, for its peer, and its events name
/// no other peer.
pub proof fn lemma_tick_from(s: SocketView, time: u128, delays: Seq<Option<Delays>>, index: int)
    requires
        0 <= index <= s.connections.len(),
    ensures
        s.tick_from(time, delays, index).0.config == s.config,
        s.tick_from(time, delays, index).0.connections.len() == s.connections.len(),
        forall|k: int|
            0 <= k < s.connections.len() ==> (#[trigger] s.tick_from(
                time,
                delays,
                index,
            ).0.connections[k]).addr == s.connections[k].addr,
        forall|k: int|
            0 <= k < s.connections.len() && s.connections[k].drop_connection ==> (
            #[trigger] s.tick_from(time, delays, index).0.connections[k]).drop_connection,
        s.tick_from(time, delays, index).1.len() == s.connections.len() - index,
        forall|j: int|
            0 <= j < s.connections.len() - index ==> (#[trigger] s.tick_from(
                time,
                delays,
                index,
            ).1[j]).addr == s.connections[index + j].addr,
        forall|j: int, addr: Address|
            0 <= j < s.connections.len() - index && addr != s.connections[index + j].addr
                ==> !#[trigger] update_names(s.tick_from(time, delays, index).1[j], addr),
    decreases s.connections.len() - index,
{
    if index < s.connections.len() {
        let c = s.connections[index];
        let given = delays_at(delays, index);
        lemma_update_keeps(c, time, s.config, given);
        let (next, datagrams, events) = s.update_connection(index, time, given);
        let update = ConnectionUpdateView { addr: c.addr, datagrams, events };
        lemma_tick_from(next, time, delays, index + 1);
        let result = s.tick_from(time, delays, index);
        let rest = next.tick_from(time, delays, index + 1);
        assert(result.1 == seq![update] + rest.1);
        assert forall|k: int| 0 <= k < s.connections.len() implies (
        #[trigger] result.0.connections[k]).addr == s.connections[k].addr by {
            assert(rest.0.connections[k].addr == next.connections[k].addr);
        }
        assert forall|k: int|
            0 <= k < s.connections.len() && s.connections[k].drop_connection implies (
        #[trigger] result.0.connections[k]).drop_connection by {
            assert(next.connections[k].drop_connection);
            assert(rest.0.connections[k].drop_connection);
        }
        assert forall|j: int| 0 <= j < s.connections.len() - index implies (
        #[trigger] result.1[j]).addr == s.connections[index + j].addr by {
            if j > 0 {
                assert(result.1[j] == rest.1[j - 1]);
                assert(rest.1[j - 1].addr == next.connections[index + 1 + (j - 1)].addr);
            }
        }
        assert forall|j: int, addr: Address|
            0 <= j < s.connections.len() - index && addr != s.connections[index
                + j].addr implies !#[trigger] update_names(result.1[j], addr) by {
            if j > 0 {
                assert(result.1[j] == rest.1[j - 1]);
                assert(next.connections[index + 1 + (j - 1)].addr == s.connections[index + j].addr);
                assert(!update_names(rest.1[j - 1], addr));
            } else {
                assert(result.1[0] == update);
                assert forall|k: int| 0 <= k < events.len() implies !names(
                    #[trigger] events[k],
                    addr,
                ) by {}
            }
        }
    }
}

/// The flushes from the connection at `index` on keep the connections'
/// number and peers, and every event tells of a message from the peer of one
/// of these connections.
pub proof fn lemma_flush_from(s: SocketView, time: u128, index: int)
    requires
        0 <= index <= s.connections.len(),
    ensures
        s.flush_from(time, index).0.config == s.config,
        s.flush_from(time, index).0.connections.len() == s.connections.len(),
        forall|k: int|
            0 <= k < s.connections.len() ==> (#[trigger] s.flush_from(
                time,
                index,
            ).0.connections[k]).addr == s.connections[k].addr,
        forall|n: int|
            0 <= n < s.flush_from(time, index).1.len() ==> exists|k: int|
                index <= k < s.connections.len() && names(
                    #[trigger] s.flush_from(time, index).1[n],
                    (#[trigger] s.connections[k]).addr,
                ) && s.flush_from(time, index).1[n] is Received,
    decreases s.connections.len() - index,
{
    if index < s.connections.len() {
        let c = s.connections[index];
        let (flushed, payloads) = c.flush(time);
        let next = SocketView { connections: s.connections.update(index, flushed), ..s };
        lemma_flush_from(next, time, index + 1);
        let rest = next.flush_from(time, index + 1);
        let mine = payloads.map_values(received_event(flushed.addr));
        let result = s.flush_from(time, index);
        assert(result.1 == mine + rest.1);
        assert forall|k: int| 0 <= k < s.connections.len() implies (
        #[trigger] result.0.connections[k]).addr == s.connections[k].addr by {
            assert(rest.0.connections[k].addr == next.connections[k].addr);
        }
        assert forall|n: int| 0 <= n < result.1.len() implies exists|k: int|
            index <= k < s.connections.len() && names(
                #[trigger] result.1[n],
                (#[trigger] s.connections[k]).addr,
            ) && result.1[n] is Received by {
            if n < mine.len() {
                assert(result.1[n] == mine[n]);
                assert(names(result.1[n], s.connections[index].addr));
            } else {
                assert(result.1[n] == rest.1[n - mine.len()]);
                let k = choose|k: int|
                    index + 1 <= k < next.connections.len() && names(
                        #[trigger] rest.1[n - mine.len()],
                        (#[trigger] next.connections[k]).addr,
                    ) && rest.1[n - mine.len()] is Received;
                assert(next.connections[k].addr == s.connections[k].addr);
                assert(names(result.1[n], s.connections[k].addr));
            }
        }
    }
}

/// An endpoint tells nothing of a peer with whom it has no connection, and
/// makes no connection with it by itself: neither the updates nor the closed
/// events of a round name the peer, nor do the events of a flush, and a
/// datagram from the peer that is no handshake does and tells nothing.
pub proof fn law_unconnected_is_silent(
    s: SocketView,
    addr: Address,
    time: u128,
    delays: Seq<Option<Delays>>,
    bytes: Seq<u8>,
)
    requires
        s.wf(),
        !s.is_connected(addr),
        crate::packet::parse_handshake(bytes).is_none(),
    ensures
        forall|j: int|
            0 <= j < s.tick(time, delays).1.len() ==> !update_names(
                #[trigger] s.tick(time, delays).1[j],
                addr,
            ),
        forall|j: int|
            0 <= j < s.tick(time, delays).2.len() ==> !names(
                #[trigger] s.tick(time, delays).2[j],
                addr,
            ),
        !s.tick(time, delays).0.is_connected(addr),
        forall|j: int|
            0 <= j < s.flush_from(time, 0).1.len() ==> !names(
                #[trigger] s.flush_from(time, 0).1[j],
                addr,
            ),
        !s.flush_from(time, 0).0.is_connected(addr),
        s.receive(time, addr, bytes) == (s, None::<SocketEventView>),
{
    lemma_connected(s, addr);
    lemma_tick_from(s, time, delays, 0);
    let (ticked, updates) = s.tick_from(time, delays, 0);
    let (end, closed) = ticked.remove_dropped();
    assert forall|j: int| 0 <= j < updates.len() implies !update_names(
        #[trigger] updates[j],
        addr,
    ) by {
        assert(s.connections[0 + j].addr != addr);
    }
    let gone = ticked.connections.filter(closing());
    assert forall|j: int| 0 <= j < closed.len() implies !names(#[trigger] closed[j], addr) by {
        let k = lemma_filter_member(ticked.connections, closing(), j);
        assert(closed[j] == closed_event()(gone[j]));
        assert(ticked.connections[k].addr == s.connections[k].addr);
    }
    assert(!end.is_connected(addr)) by {
        lemma_connected(end, addr);
        if end.is_connected(addr) {
            let j = choose|j: int|
                0 <= j < end.connections.len() && (#[trigger] end.connections[j]).addr == addr;
            let k = lemma_filter_member(ticked.connections, staying(), j);
            assert(ticked.connections[k].addr == s.connections[k].addr);
        }
    }
    lemma_flush_from(s, time, 0);
    let flushed = s.flush_from(time, 0);
    assert forall|j: int| 0 <= j < flushed.1.len() implies !names(#[trigger] flushed.1[j], addr) by {
        let k = choose|k: int|
            0 <= k < s.connections.len() && names(
                #[trigger] flushed.1[j],
                (#[trigger] s.connections[k]).addr,
            ) && flushed.1[j] is Received;
        assert(s.connections[k].addr != addr);
    }
    assert(!flushed.0.is_connected(addr)) by {
        lemma_connected(flushed.0, addr);
        if flushed.0.is_connected(addr) {
            let j = choose|j: int|
                0 <= j < flushed.0.connections.len() && (#[trigger] flushed.0.connections[j]).addr
                    == addr;
            assert(flushed.0.connections[j].addr == s.connections[j].addr);
        }
    }
}

/// A round tells once of each connection that it closes, and leaves no
/// connection with the peer of one that was to be closed.
proof fn lemma_round_closes(s: SocketView, i: int, time: u128, delays: Seq<Option<Delays>>)
    requires
        forall|a: int, b: int|
            0 <= a < b < s.connections.len() ==> (#[trigger] s.connections[a]).addr != (
            #[trigger] s.connections[b]).addr,
        0 <= i < s.connections.len(),
        s.connections[i].drop_connection,
    ensures
        ({
            let (end, updates, closed) = s.tick(time, delays);
            let told = SocketEventView::ClosedConnection { addr: s.connections[i].addr };
            &&& exists|j: int| 0 <= j < closed.len() && #[trigger] closed[j] == told
            &&& forall|a: int, b: int|
                0 <= a < closed.len() && 0 <= b < closed.len() && #[trigger] closed[a] == told
                    && #[trigger] closed[b] == told ==> a == b
            &&& forall|j: int|
                0 <= j < end.connections.len() ==> (#[trigger] end.connections[j]).addr
                    != s.connections[i].addr
        }),
{
    let addr = s.connections[i].addr;
    lemma_tick_from(s, time, delays, 0);
    let (ticked, updates) = s.tick_from(time, delays, 0);
    let (end, closed) = ticked.remove_dropped();
    let told = SocketEventView::ClosedConnection { addr };
    assert forall|a: int, b: int| 0 <= a < b < ticked.connections.len() implies distinct_peers()(
        #[trigger] ticked.connections[a],
        #[trigger] ticked.connections[b],
    ) by {
        assert(ticked.connections[a].addr == s.connections[a].addr);
        assert(ticked.connections[b].addr == s.connections[b].addr);
        assert(s.connections[a].addr != s.connections[b].addr);
    }
    let gone = ticked.connections.filter(closing());
    // the caller is told
    assert(ticked.connections[i].drop_connection);
    assert(ticked.connections[i].addr == addr);
    ticked.connections.lemma_filter_contains(closing(), i);
    let at = choose|at: int| 0 <= at < gone.len() && gone[at] == ticked.connections[i];
    assert(closed[at] == told);
    // and once only
    lemma_filter_pairwise(ticked.connections, closing(), distinct_peers());
    assert forall|a: int, b: int|
        0 <= a < closed.len() && 0 <= b < closed.len() && #[trigger] closed[a] == told
            && #[trigger] closed[b] == told implies a == b by {
        assert(closed[a] == closed_event()(gone[a]));
        assert(closed[b] == closed_event()(gone[b]));
        if a < b {
            assert(distinct_peers()(gone[a], gone[b]));
        } else if b < a {
            assert(distinct_peers()(gone[b], gone[a]));
        }
    }
    // no connection with the peer is left
    assert forall|j: int| 0 <= j < end.connections.len() implies (
    #[trigger] end.connections[j]).addr != addr by {
        let k = lemma_filter_member(ticked.connections, staying(), j);
        ticked.connections.lemma_filter_pred(staying(), j);
        assert(ticked.connections[k].addr == s.connections[k].addr);
        if k < i {
            assert(s.connections[k].addr != s.connections[i].addr);
        } else if i < k {
            assert(s.connections[i].addr != s.connections[k].addr);
        }
    }
}

/// After `close_connection` the next round closes the connection: the
/// caller is told so exactly once, behind all events of the updates; no
/// connection with the peer is left; and to send to the peer or to close it
/// again fails.
pub proof fn law_round_closes(s: SocketView, addr: Address, time: u128, delays: Seq<Option<Delays>>)
    requires
        s.wf(),
        s.is_connected(addr),
    ensures
        ({
            let marked = s.close_connection(addr).0;
            let (end, updates, closed) = marked.tick(time, delays);
            let told = SocketEventView::ClosedConnection { addr };
            &&& s.close_connection(addr).1
            &&& exists|j: int| 0 <= j < closed.len() && #[trigger] closed[j] == told
            &&& forall|a: int, b: int|
                0 <= a < closed.len() && 0 <= b < closed.len() && #[trigger] closed[a] == told
                    && #[trigger] closed[b] == told ==> a == b
            &&& !end.is_connected(addr)
            &&& forall|reliable: bool, data: Seq<u8>| !(#[trigger] end.send(addr, reliable, data)).1
            &&& !end.close_connection(addr).1
        }),
{
    lemma_connected(s, addr);
    lemma_first_position_exists(s.connections, connected_to(addr));
    let i = index_of(s.connections, addr);
    assert(0 <= i < s.connections.len());
    assert(s.connections[i].addr == addr);
    let closing_one = ConnectionView { drop_connection: true, ..s.connections[i] };
    let marked = s.close_connection(addr).0;
    assert(marked.connections == s.connections.update(i, closing_one));
    assert(marked.connections[i] == closing_one);
    assert forall|a: int, b: int| 0 <= a < b < marked.connections.len() implies (
    #[trigger] marked.connections[a]).addr != (#[trigger] marked.connections[b]).addr by {
        assert(marked.connections[a].addr == s.connections[a].addr);
        assert(marked.connections[b].addr == s.connections[b].addr);
        assert(s.connections[a].addr != s.connections[b].addr);
    }
    lemma_round_closes(marked, i, time, delays);
    let end = marked.tick(time, delays).0;
    lemma_connected(end, addr);
}

} // verus!
