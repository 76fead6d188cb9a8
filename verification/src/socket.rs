//! The engine of one endpoint: the connections by peer address, and what a
//! tick, an arriving datagram and the caller's requests do to them. The
//! caller owns the socket: it sends the datagrams that the engine hands out
//! and hands in the datagrams that arrive.

use crate::connection::{
    first_match, is_first_match, lemma_filter_pairwise, lemma_first_match, Connection,
    ConnectionView,
};
use crate::packer::datagrams_view;
use crate::packet::{parse_handshake, parse_packet, Handshake, Packet};
use crate::{Address, Config, Delays, Error};
use vstd::prelude::*;

verus! {

/// What the engine tells the caller.
pub enum SocketEvent {
    /// A message from `addr` is complete.
    Received { addr: Address, data: Vec<u8> },
    /// The connection with `addr` stands.
    NewConnection { addr: Address },
    /// `addr` asks for a connection. The caller accepts with
    /// [`Socket::accept_connection`].
    ConnectionRequest { addr: Address },
    /// The connection with `addr` is closed.
    ClosedConnection { addr: Address },
    /// Something went wrong.
    Error(Error),
}

/// An event as a mathematical value.
pub enum SocketEventView {
    /// A message from `addr` is complete.
    Received { addr: Address, data: Seq<u8> },
    /// The connection with `addr` stands.
    NewConnection { addr: Address },
    /// `addr` asks for a connection.
    ConnectionRequest { addr: Address },
    /// The connection with `addr` is closed.
    ClosedConnection { addr: Address },
    /// Something went wrong.
    Error(Error),
}

impl View for SocketEvent {
    type V = SocketEventView;

    open spec fn view(&self) -> SocketEventView {
        match self {
            SocketEvent::Received { addr, data } => SocketEventView::Received {
                addr: *addr,
                data: data@,
            },
            SocketEvent::NewConnection { addr } => SocketEventView::NewConnection { addr: *addr },
            SocketEvent::ConnectionRequest { addr } => SocketEventView::ConnectionRequest {
                addr: *addr,
            },
            SocketEvent::ClosedConnection { addr } => SocketEventView::ClosedConnection {
                addr: *addr,
            },
            SocketEvent::Error(error) => SocketEventView::Error(*error),
        }
    }
}

/// The mathematical values of a list of events.
pub open spec fn events_view(events: Seq<SocketEvent>) -> Seq<SocketEventView> {
    Seq::new(events.len(), |i: int| events[i]@)
}

/// The mathematical values of a list of connections.
pub open spec fn connections_view(connections: Seq<Connection>) -> Seq<ConnectionView> {
    Seq::new(connections.len(), |i: int| connections[i]@)
}

/// The connections with the peer `addr`.
pub open spec fn connected_to(addr: Address) -> spec_fn(ConnectionView) -> bool {
    |c: ConnectionView| c.addr == addr
}

/// The connections that are to be closed.
pub open spec fn closing() -> spec_fn(ConnectionView) -> bool {
    |c: ConnectionView| c.drop_connection
}

/// The connections that stay.
pub open spec fn staying() -> spec_fn(ConnectionView) -> bool {
    |c: ConnectionView| !c.drop_connection
}

/// Two connections with different peers.
pub open spec fn distinct_peers() -> spec_fn(ConnectionView, ConnectionView) -> bool {
    |a: ConnectionView, b: ConnectionView| a.addr != b.addr
}

/// The event that a connection is closed.
pub open spec fn closed_event() -> spec_fn(ConnectionView) -> SocketEventView {
    |c: ConnectionView| SocketEventView::ClosedConnection { addr: c.addr }
}

/// The event that a message from `addr` is complete.
pub open spec fn received_event(addr: Address) -> spec_fn(Seq<u8>) -> SocketEventView {
    |data: Seq<u8>| SocketEventView::Received { addr, data }
}

/// The connections are well-formed and no two have the same peer.
pub open spec fn connections_wf(connections: Seq<ConnectionView>) -> bool {
    &&& forall|i: int| 0 <= i < connections.len() ==> (#[trigger] connections[i]).wf()
    &&& forall|i: int, j: int|
        0 <= i < j < connections.len() ==> (#[trigger] connections[i]).addr != (
        #[trigger] connections[j]).addr
}

/// The position of the connection with `addr`, or the number of connections.
pub open spec fn index_of(connections: Seq<ConnectionView>, addr: Address) -> int {
    first_match(connections, connected_to(addr))
}

/// An endpoint as a mathematical value.
pub struct SocketView {
    /// The tunables.
    pub config: Config,
    /// The connections, oldest first.
    pub connections: Seq<ConnectionView>,
}

impl SocketView {
    /// The connections are well-formed and no two have the same peer.
    pub open spec fn wf(self) -> bool {
        connections_wf(self.connections)
    }

    /// Whether there is a connection with `addr`.
    pub open spec fn is_connected(self, addr: Address) -> bool {
        index_of(self.connections, addr) < self.connections.len()
    }

    /// The connection with `addr`.
    pub open spec fn connection(self, addr: Address) -> ConnectionView {
        self.connections[index_of(self.connections, addr)]
    }

    /// The endpoint with `connection` in the place of the connection with `addr`.
    pub open spec fn with_connection(self, addr: Address, connection: ConnectionView) -> SocketView {
        SocketView {
            connections: self.connections.update(index_of(self.connections, addr), connection),
            ..self
        }
    }

    /// Adds a connection with `addr`, made at `time`. The flag is `false`,
    /// and nothing changes, where there is one already.
    pub open spec fn add_connection(self, time: u128, addr: Address, opening_party: bool) -> (
        SocketView,
        bool,
    ) {
        if self.is_connected(addr) {
            (self, false)
        } else {
            (
                SocketView {
                    connections: self.connections.push(
                        ConnectionView::new(time, addr, opening_party),
                    ),
                    ..self
                },
                true,
            )
        }
    }

    /// Queues a message for `addr`. The flag is `false`, and nothing
    /// changes, where there is no connection with `addr` or the connection
    /// does not take the message.
    pub open spec fn send(self, addr: Address, reliable: bool, data: Seq<u8>) -> (SocketView, bool) {
        if !self.is_connected(addr) {
            (self, false)
        } else {
            let (next, ok) = self.connection(addr).send(reliable, data);
            (self.with_connection(addr, next), ok)
        }
    }

    /// Marks the connection with `addr` to be closed. The flag is `false`
    /// where there is none.
    pub open spec fn close_connection(self, addr: Address) -> (SocketView, bool) {
        if !self.is_connected(addr) {
            (self, false)
        } else {
            (
                self.with_connection(
                    addr,
                    ConnectionView { drop_connection: true, ..self.connection(addr) },
                ),
                true,
            )
        }
    }

    /// The tick of the connection at `index`. Beside the endpoint stand the
    /// datagrams to send to the peer, and the events: the error that ended
    /// the tick early, if one did, and then the news that the connection
    /// stands, where the caller has yet to be told.
    pub open spec fn update_connection(self, index: int, time: u128, delays: Option<Delays>) -> (
        SocketView,
        Seq<Seq<u8>>,
        Seq<SocketEventView>,
    ) {
        let (next, datagrams, ok) = self.connections[index].update(time, self.config, delays);
        let errors = if ok {
            Seq::empty()
        } else {
            seq![SocketEventView::Error(Error::MtuTooSmall)]
        };
        let news = if next.just_connected {
            seq![SocketEventView::NewConnection { addr: next.addr }]
        } else {
            Seq::empty()
        };
        (
            SocketView {
                connections: self.connections.update(
                    index,
                    ConnectionView { just_connected: false, ..next },
                ),
                ..self
            },
            datagrams,
            errors + news,
        )
    }

    /// The ticks of the connections from `index` on, one after the other,
    /// each with its waiting times. Beside the endpoint stands what each
    /// tick hands out.
    pub open spec fn tick_from(self, time: u128, delays: Seq<Option<Delays>>, index: int) -> (
        SocketView,
        Seq<ConnectionUpdateView>,
    )
        decreases self.connections.len() - index,
    {
        if index < 0 || index >= self.connections.len() {
            (self, Seq::empty())
        } else {
            let (next, datagrams, events) = self.update_connection(
                index,
                time,
                delays_at(delays, index),
            );
            let update = ConnectionUpdateView {
                addr: self.connections[index].addr,
                datagrams,
                events,
            };
            let (rest, updates) = next.tick_from(time, delays, index + 1);
            (rest, seq![update] + updates)
        }
    }

    /// A round of ticks: every connection has its tick, in order, and then
    /// the connections that are to be closed are removed. Beside the
    /// endpoint stand what each tick hands out and, behind that, the news of
    /// each connection that was closed.
    pub open spec fn tick(self, time: u128, delays: Seq<Option<Delays>>) -> (
        SocketView,
        Seq<ConnectionUpdateView>,
        Seq<SocketEventView>,
    ) {
        let (ticked, updates) = self.tick_from(time, delays, 0);
        let (end, closed) = ticked.remove_dropped();
        (end, updates, closed)
    }

    /// Removes the connections that are to be closed. Beside the endpoint
    /// stands the news of each, in order.
    pub open spec fn remove_dropped(self) -> (SocketView, Seq<SocketEventView>) {
        (
            SocketView { connections: self.connections.filter(staying()), ..self },
            self.connections.filter(closing()).map_values(closed_event()),
        )
    }

    /// What a datagram from `addr` does that arrived at `time`.
    ///
    /// A handshake asks for a connection where its protocol identifier is
    /// the endpoint's and there is no connection with `addr`; else it is
    /// ignored. Any other datagram is ignored where there is no connection
    /// with `addr`. Else it goes to the connection as a packet; where it is
    /// no packet, or the connection refuses a blob, the event is the error.
    pub open spec fn receive(self, time: u128, addr: Address, bytes: Seq<u8>) -> (
        SocketView,
        Option<SocketEventView>,
    ) {
        match parse_handshake(bytes) {
            Some(protocol_id) => if protocol_id == self.config.protocol_id && !self.is_connected(
                addr,
            ) {
                (self, Some(SocketEventView::ConnectionRequest { addr }))
            } else {
                (self, None)
            },
            None => if !self.is_connected(addr) {
                (self, None)
            } else {
                match parse_packet(bytes) {
                    None => (self, Some(SocketEventView::Error(Error::MalformedPacket { addr }))),
                    Some(blobs) => {
                        let (next, ok) = self.connection(addr).receive(
                            time,
                            self.config.rtt_memory,
                            blobs,
                        );
                        (
                            self.with_connection(addr, next),
                            if ok {
                                None
                            } else {
                                Some(SocketEventView::Error(Error::MalformedPacket { addr }))
                            },
                        )
                    },
                }
            },
        }
    }

    /// Hands the complete messages of the connections from `index` on to the
    /// caller. Beside the endpoint stand the events, connection by
    /// connection, each connection's messages in order.
    pub open spec fn flush_from(self, time: u128, index: int) -> (SocketView, Seq<SocketEventView>)
        decreases self.connections.len() - index,
    {
        if index < 0 || index >= self.connections.len() {
            (self, Seq::empty())
        } else {
            let (next, payloads) = self.connections[index].flush(time);
            let (rest, events) = (SocketView {
                connections: self.connections.update(index, next),
                ..self
            }).flush_from(time, index + 1);
            (rest, payloads.map_values(received_event(next.addr)) + events)
        }
    }
}

/// Every connection of the list is well-formed and no two have the same peer.
pub closed spec fn list_wf(connections: Seq<Connection>) -> bool {
    &&& connections_wf(connections_view(connections))
    &&& forall|i: int| 0 <= i < connections.len() ==> (#[trigger] connections[i]).wf()
}

/// A well-formed list stays well-formed where a connection is replaced by a
/// well-formed connection with the same peer.
proof fn lemma_list_update(connections: Seq<Connection>, index: int, connection: Connection)
    requires
        list_wf(connections),
        0 <= index < connections.len(),
        connection.wf(),
        connection@.addr == connections[index]@.addr,
    ensures
        list_wf(connections.update(index, connection)),
        connections_view(connections.update(index, connection)) == connections_view(
            connections,
        ).update(index, connection@),
{
    let views = connections_view(connections);
    let after = connections.update(index, connection);
    let updated = views.update(index, connection@);
    assert(connections_view(after) =~= updated);
    connection.lemma_wf();
    assert forall|i: int| 0 <= i < after.len() implies (#[trigger] after[i]).wf() by {
        if i != index {
            assert(connections[i].wf());
        }
    }
    assert forall|i: int| 0 <= i < updated.len() implies (#[trigger] updated[i]).wf() by {
        if i != index {
            assert(views[i].wf());
        }
    }
    assert forall|i: int, j: int| 0 <= i < j < updated.len() implies (#[trigger] updated[i]).addr
        != (#[trigger] updated[j]).addr by {
        assert(views[i].addr != views[j].addr);
    }
}

/// The connections of an endpoint, at most one for each peer address.
pub struct Connections {
    connections: Vec<Connection>,
}

impl View for Connections {
    type V = Seq<ConnectionView>;

    closed spec fn view(&self) -> Seq<ConnectionView> {
        connections_view(self.connections@)
    }
}

impl Connections {
    /// Every connection is well-formed and no two have the same peer.
    pub closed spec fn wf(&self) -> bool {
        list_wf(self.connections@)
    }

    /// No connections.
    pub fn new() -> (connections: Self)
        ensures
            connections.wf(),
            connections@ == Seq::<ConnectionView>::empty(),
    {
        let connections = Connections { connections: Vec::new() };
        assert(connections@ =~= Seq::<ConnectionView>::empty());
        connections
    }

    /// The number of connections.
    pub fn len(&self) -> (n: usize)
        ensures
            n == self@.len(),
    {
        self.connections.len()
    }

    /// The position of the connection with `addr`, or the number of connections.
    pub fn position(&self, addr: Address) -> (index: usize)
        ensures
            index == index_of(self@, addr),
            is_first_match(self@, connected_to(addr), index as int),
            index <= self@.len(),
    {
        let mut index: usize = 0;
        while index < self.connections.len()
            invariant
                index <= self.connections.len(),
                forall|j: int| 0 <= j < index ==> (#[trigger] self.connections[j])@.addr != addr,
            decreases self.connections.len() - index,
        {
            if self.connections[index].address() == addr {
                proof {
                    let s = self@;
                    assert forall|j: int| 0 <= j < index implies !connected_to(addr)(
                        #[trigger] s[j],
                    ) by {
                        assert(s[j] == self.connections[j]@);
                    }
                    assert(s[index as int] == self.connections[index as int]@);
                    lemma_first_match(s, connected_to(addr), index as int);
                }
                return index;
            }
            index += 1;
        }
        proof {
            let s = self@;
            assert forall|j: int| 0 <= j < index implies !connected_to(addr)(#[trigger] s[j]) by {
                assert(s[j] == self.connections[j]@);
            }
            lemma_first_match(s, connected_to(addr), index as int);
        }
        index
    }

    /// Adds a connection and hands it out to work on; it has to stay
    /// well-formed and with its peer. Fails, and changes nothing, where there
    /// is a connection with the same peer already.
    pub fn new_connection(&mut self, connection: Connection) -> (r: Result<&mut Connection, ()>)
        requires
            old(self).wf(),
            connection.wf(),
        ensures
            match r {
                Ok(added) => {
                    &&& index_of(old(self)@, connection@.addr) >= old(self)@.len()
                    &&& added@ == connection@
                    &&& added.wf()
                    &&& final(self)@ == old(self)@.push(final(added)@)
                    &&& final(added).wf() && final(added)@.addr == connection@.addr ==> final(
                        self).wf()
                },
                Err(_) => {
                    &&& index_of(old(self)@, connection@.addr) < old(self)@.len()
                    &&& final(self)@ == old(self)@
                    &&& final(self).wf()
                },
            },
    {
        let addr = connection.address();
        if self.position(addr) < self.connections.len() {
            return Err(());
        }
        let ghost before = self.connections@;
        let ghost views = self@;
        let ghost added = connection@;
        proof {
            connection.lemma_wf();
        }
        let index = self.connections.len();
        self.connections.push(connection);
        proof {
            let pushed = views.push(added);
            assert(self@ =~= pushed);
            assert forall|i: int| 0 <= i < self.connections.len() implies (
            #[trigger] self.connections[i]).wf() by {
                if i < before.len() {
                    assert(self.connections[i] == before[i]);
                }
            }
            assert forall|i: int| 0 <= i < pushed.len() implies (#[trigger] pushed[i]).wf() by {
                if i < views.len() {
                    assert(views[i].wf());
                }
            }
            assert forall|i: int, j: int| 0 <= i < j < pushed.len() implies (
            #[trigger] pushed[i]).addr != (#[trigger] pushed[j]).addr by {
                if j < views.len() {
                    assert(views[i].addr != views[j].addr);
                } else {
                    assert(!connected_to(addr)(views[i]));
                }
            }
            assert forall|c: ConnectionView| #[trigger]
                views.push(added).update(index as int, c) == views.push(c) by {
                assert(views.push(added).update(index as int, c) =~= views.push(c));
            }
        }
        Ok(self.connection_at_mut(index))
    }

    /// The connection with `addr`, if there is one.
    pub fn get_connection(&self, addr: Address) -> (r: Option<&Connection>)
        requires
            self.wf(),
        ensures
            match r {
                Some(connection) => index_of(self@, addr) < self@.len() && connection@
                    == self@[index_of(self@, addr)] && connection.wf(),
                None => index_of(self@, addr) >= self@.len(),
            },
    {
        let index = self.position(addr);
        if index < self.connections.len() {
            assert(self@[index as int] == self.connections[index as int]@);
            Some(&self.connections[index])
        } else {
            None
        }
    }

    /// The connection at `index`.
    pub fn connection_at(&self, index: usize) -> (connection: &Connection)
        requires
            self.wf(),
            index < self@.len(),
        ensures
            connection@ == self@[index as int],
            connection.wf(),
    {
        &self.connections[index]
    }

    /// The connection at `index`, to work on. It has to stay well-formed and
    /// with its peer.
    pub fn connection_at_mut(&mut self, index: usize) -> (connection: &mut Connection)
        requires
            old(self).wf(),
            index < old(self)@.len(),
        ensures
            connection@ == old(self)@[index as int],
            connection.wf(),
            final(self)@ == old(self)@.update(index as int, final(connection)@),
            final(connection).wf() && final(connection)@.addr == old(self)@[index as int].addr
                ==> final(self).wf(),
    {
        let ghost before = self.connections@;
        proof {
            assert forall|c: Connection|
                c.wf() && c@.addr == before[index as int]@.addr implies #[trigger] list_wf(
                before.update(index as int, c),
            ) && connections_view(before.update(index as int, c)) == connections_view(
                before,
            ).update(index as int, c@) by {
                lemma_list_update(before, index as int, c);
            }
            assert forall|c: Connection| #[trigger]
                connections_view(before.update(index as int, c)) == connections_view(
                    before,
                ).update(index as int, c@) by {
                assert(connections_view(before.update(index as int, c)) =~= connections_view(
                    before,
                ).update(index as int, c@));
            }
        }
        let connection = &mut self.connections[index];
        connection
    }

    /// The connection with `addr`, if there is one, to work on. It has to
    /// stay well-formed and with its peer.
    pub fn get_connection_mut(&mut self, addr: Address) -> (r: Option<&mut Connection>)
        requires
            old(self).wf(),
        ensures
            match r {
                Some(connection) => {
                    &&& index_of(old(self)@, addr) < old(self)@.len()
                    &&& connection@ == old(self)@[index_of(old(self)@, addr)]
                    &&& connection@.addr == addr
                    &&& connection.wf()
                    &&& final(self)@ == old(self)@.update(
                        index_of(old(self)@, addr),
                        final(connection)@,
                    )
                    &&& final(connection).wf() && final(connection)@.addr == addr ==> final(
                        self).wf()
                },
                None => {
                    &&& index_of(old(self)@, addr) >= old(self)@.len()
                    &&& final(self)@ == old(self)@
                    &&& final(self).wf()
                },
            },
    {
        let index = self.position(addr);
        if index < self.connections.len() {
            assert(connected_to(addr)(self@[index as int]));
            Some(self.connection_at_mut(index))
        } else {
            None
        }
    }

    /// Removes the connection with `addr`, if there is one.
    pub fn remove_connection(&mut self, addr: Address)
        requires
            old(self).wf(),
        ensures
            final(self).wf(),
            final(self)@ == if index_of(old(self)@, addr) < old(self)@.len() {
                old(self)@.remove(index_of(old(self)@, addr))
            } else {
                old(self)@
            },
    {
        let index = self.position(addr);
        if index < self.connections.len() {
            let ghost before = self.connections@;
            let ghost views = self@;
            self.connections.remove(index);
            proof {
                let removed = views.remove(index as int);
                assert(self@ =~= removed);
                assert forall|i: int| 0 <= i < self.connections.len() implies (
                #[trigger] self.connections[i]).wf() by {
                    if i < index {
                        assert(self.connections[i] == before[i]);
                    } else {
                        assert(self.connections[i] == before[i + 1]);
                    }
                }
                assert forall|i: int| 0 <= i < removed.len() implies (#[trigger] removed[i]).wf() by {
                    if i < index {
                        assert(views[i].wf());
                    } else {
                        assert(views[i + 1].wf());
                    }
                }
                assert forall|i: int, j: int| 0 <= i < j < removed.len() implies (
                #[trigger] removed[i]).addr != (#[trigger] removed[j]).addr by {
                    let a = if i < index { i } else { i + 1 };
                    let b = if j < index { j } else { j + 1 };
                    assert(views[a].addr != views[b].addr);
                }
            }
        }
    }

    /// Removes the connections that are to be closed, and returns their
    /// peers in order.
    pub fn remove_dropped(&mut self) -> (closed: Vec<Address>)
        requires
            old(self).wf(),
        ensures
            final(self).wf(),
            final(self)@ == old(self)@.filter(staying()),
            closed@.len() == old(self)@.filter(closing()).len(),
            forall|i: int|
                0 <= i < closed@.len() ==> (#[trigger] closed@[i]) == old(self)@.filter(
                    closing(),
                )[i].addr,
    {
        let mut closed: Vec<Address> = Vec::new();
        let mut kept: Vec<Connection> = Vec::new();
        let mut connections: Vec<Connection> = Vec::new();
        core::mem::swap(&mut self.connections, &mut connections);
        let ghost views = connections_view(connections@);
        proof {
            assert(views == old(self)@);
            reveal(Seq::filter);
            assert(views.take(0).filter(staying()) =~= Seq::<ConnectionView>::empty());
            assert(views.take(0).filter(closing()) =~= Seq::<ConnectionView>::empty());
            assert(connections_view(kept@) =~= Seq::<ConnectionView>::empty());
        }
        for connection in it: connections.into_iter()
            invariant
                it.seq() == connections@,
                views == connections_view(connections@),
                forall|i: int| 0 <= i < connections.len() ==> (#[trigger] connections[i]).wf(),
                forall|i: int| 0 <= i < kept.len() ==> (#[trigger] kept[i]).wf(),
                connections_view(kept@) == views.take(it.index() as int).filter(staying()),
                closed@.len() == views.take(it.index() as int).filter(closing()).len(),
                forall|i: int|
                    0 <= i < closed@.len() ==> (#[trigger] closed@[i]) == views.take(
                        it.index() as int,
                    ).filter(closing())[i].addr,
        {
            let ghost i = it.index() as int;
            let ghost c = connection@;
            let ghost kept_before = kept@;
            let ghost closed_before = closed@;
            proof {
                assert(views[i] == c);
                assert(connections[i].wf());
                assert(views.take(i + 1) =~= views.take(i).push(c));
                views.take(i).lemma_filter_push(c, staying());
                views.take(i).lemma_filter_push(c, closing());
            }
            if connection.should_drop() {
                closed.push(connection.address());
                proof {
                    let gone = views.take(i + 1).filter(closing());
                    assert forall|a: int| 0 <= a < closed@.len() implies (#[trigger] closed@[a])
                        == gone[a].addr by {
                        if a < closed_before.len() {
                            assert(closed@[a] == closed_before[a]);
                        }
                    }
                }
            } else {
                kept.push(connection);
                proof {
                    assert(connections_view(kept@) =~= connections_view(kept_before).push(c));
                    assert forall|a: int| 0 <= a < kept.len() implies (#[trigger] kept[a]).wf() by {
                        if a < kept_before.len() {
                            assert(kept[a] == kept_before[a]);
                        }
                    }
                }
            }
        }
        self.connections = kept;
        proof {
            assert(views.take(views.len() as int) =~= views);
            let next = self@;
            assert forall|a: int, b: int| 0 <= a < b < views.len() implies distinct_peers()(
                #[trigger] views[a],
                #[trigger] views[b],
            ) by {
                assert(views[a].addr != views[b].addr);
            }
            lemma_filter_pairwise(views, staying(), distinct_peers());
            assert forall|a: int| 0 <= a < next.len() implies (#[trigger] next[a]).wf() by {
                self.connections[a].lemma_wf();
            }
            assert forall|a: int, b: int| 0 <= a < b < next.len() implies (#[trigger] next[a]).addr
                != (#[trigger] next[b]).addr by {
                assert(distinct_peers()(next[a], next[b]));
            }
        }
        closed
    }
}

/// What the tick of one connection hands to the caller.
pub struct ConnectionUpdate {
    /// The peer of the connection.
    pub addr: Address,
    /// The datagrams to send to the peer, in order.
    pub datagrams: Vec<Vec<u8>>,
    /// What the caller is to be told, in order.
    pub events: Vec<SocketEvent>,
}

/// What the tick of one connection hands to the caller, as a mathematical value.
pub struct ConnectionUpdateView {
    /// The peer of the connection.
    pub addr: Address,
    /// The datagrams to send to the peer, in order.
    pub datagrams: Seq<Seq<u8>>,
    /// What the caller is to be told, in order.
    pub events: Seq<SocketEventView>,
}

impl View for ConnectionUpdate {
    type V = ConnectionUpdateView;

    open spec fn view(&self) -> ConnectionUpdateView {
        ConnectionUpdateView {
            addr: self.addr,
            datagrams: datagrams_view(self.datagrams@),
            events: events_view(self.events@),
        }
    }
}

/// The mathematical values of a list of updates.
pub open spec fn updates_view(updates: Seq<ConnectionUpdate>) -> Seq<ConnectionUpdateView> {
    Seq::new(updates.len(), |i: int| updates[i]@)
}

/// The waiting times of the connection at `index`: those at `index` of the
/// list, or none where the list is shorter.
pub open spec fn delays_at(delays: Seq<Option<Delays>>, index: int) -> Option<Delays> {
    if 0 <= index < delays.len() {
        delays[index]
    } else {
        None
    }
}

/// What a round of ticks hands to the caller.
pub struct Round {
    /// What the tick of each connection hands out, in the order of the
    /// connections.
    pub updates: Vec<ConnectionUpdate>,
    /// The news of each connection that the round has closed, in order.
    /// They come behind all events of the updates.
    pub closed: Vec<SocketEvent>,
}

/// The engine of one endpoint.
pub struct Socket {
    config: Config,
    connections: Connections,
}

impl View for Socket {
    type V = SocketView;

    closed spec fn view(&self) -> SocketView {
        SocketView { config: self.config, connections: self.connections@ }
    }
}

impl Socket {
    /// Every connection is well-formed and no two have the same peer.
    pub closed spec fn wf(&self) -> bool {
        self.connections.wf()
    }

    /// A well-formed endpoint has a well-formed view.
    pub proof fn lemma_wf(&self)
        requires
            self.wf(),
        ensures
            self@.wf(),
    {
    }

    /// An endpoint without connections.
    pub fn new(config: Config) -> (socket: Self)
        ensures
            socket.wf(),
            socket@ == (SocketView { config, connections: Seq::empty() }),
    {
        Socket { config, connections: Connections::new() }
    }

    /// The tunables.
    pub fn config(&self) -> (config: Config)
        ensures
            config == self@.config,
    {
        self.config
    }

    /// Adds a connection with `addr`.
    fn add_connection(&mut self, time: u128, addr: Address, opening_party: bool) -> (r: Result<
        (),
        (),
    >)
        requires
            old(self).wf(),
        ensures
            final(self).wf(),
            (final(self)@, r.is_ok()) == old(self)@.add_connection(time, addr, opening_party),
    {
        match self.connections.new_connection(Connection::new(time, addr, opening_party)) {
            Ok(_) => Ok(()),
            Err(()) => Err(()),
        }
    }

    /// Opens a connection with `addr` at `time`: the connection is pending
    /// until the peer's first heartbeat arrives. Fails, and changes nothing,
    /// where there is a connection with `addr` already.
    pub fn open_connection(&mut self, time: u128, addr: Address) -> (r: Result<(), ()>)
        requires
            old(self).wf(),
        ensures
            final(self).wf(),
            (final(self)@, r.is_ok()) == old(self)@.add_connection(time, addr, true),
    {
        self.add_connection(time, addr, true)
    }

    /// Accepts the connection that `addr` asked for: the connection stands
    /// from `time` on. Fails, and changes nothing, where there is a
    /// connection with `addr` already.
    pub fn accept_connection(&mut self, time: u128, addr: Address) -> (r: Result<(), ()>)
        requires
            old(self).wf(),
        ensures
            final(self).wf(),
            (final(self)@, r.is_ok()) == old(self)@.add_connection(time, addr, false),
    {
        self.add_connection(time, addr, false)
    }

    /// Queues a message for `addr`. Fails, and changes nothing, where there
    /// is no connection with `addr`, the payload is longer than the wire
    /// format can describe, or every fragmentation identifier is in use.
    pub fn send(&mut self, addr: Address, reliable: bool, data: Vec<u8>) -> (r: Result<(), ()>)
        requires
            old(self).wf(),
        ensures
            final(self).wf(),
            (final(self)@, r.is_ok()) == old(self)@.send(addr, reliable, data@),
    {
        match self.connections.get_connection_mut(addr) {
            Some(connection) => connection.send(reliable, data),
            None => Err(()),
        }
    }

    /// How many messages for `addr` are not yet delivered. Fails where
    /// there is no connection with `addr`.
    pub fn messages_in_transit(&self, addr: Address) -> (r: Result<usize, ()>)
        requires
            self.wf(),
        ensures
            match r {
                Ok(n) => self@.is_connected(addr) && n == self@.connection(addr).send_messages.len(),
                Err(_) => !self@.is_connected(addr),
            },
    {
        match self.connections.get_connection(addr) {
            Some(connection) => Ok(connection.in_transit()),
            None => Err(()),
        }
    }

    /// Marks the connection with `addr` to be closed: its next tick sends a
    /// disconnect blob, and then it is removed. Fails where there is no
    /// connection with `addr`.
    pub fn close_connection(&mut self, addr: Address) -> (r: Result<(), ()>)
        requires
            old(self).wf(),
        ensures
            final(self).wf(),
            (final(self)@, r.is_ok()) == old(self)@.close_connection(addr),
    {
        match self.connections.get_connection_mut(addr) {
            Some(connection) => {
                connection.drop();
                Ok(())
            },
            None => Err(()),
        }
    }

    /// The number of connections.
    pub fn connection_count(&self) -> (n: usize)
        ensures
            n == self@.connections.len(),
    {
        self.connections.len()
    }

    /// The peer of the connection at `index`.
    pub fn address_at(&self, index: usize) -> (addr: Address)
        requires
            self.wf(),
            index < self@.connections.len(),
        ensures
            addr == self@.connections[index as int].addr,
    {
        self.connections.connection_at(index).address()
    }

    /// The round trip time estimate of the connection at `index`.
    pub fn round_trip_time_at(&self, index: usize) -> (rtt: Option<u128>)
        requires
            self.wf(),
            index < self@.connections.len(),
        ensures
            rtt == self@.connections[index as int].cached_rtt,
    {
        self.connections.connection_at(index).round_trip_time()
    }

    /// The tick of the connection at `index`, with the waiting times that
    /// follow from its round trip time estimate.
    pub fn update_connection(&mut self, index: usize, time: u128, delays: Option<Delays>) -> (update:
        ConnectionUpdate)
        requires
            old(self).wf(),
            index < old(self)@.connections.len(),
        ensures
            final(self).wf(),
            final(self)@ == old(self)@.update_connection(index as int, time, delays).0,
            update.addr == old(self)@.connections[index as int].addr,
            datagrams_view(update.datagrams@) == old(self)@.update_connection(
                index as int,
                time,
                delays,
            ).1,
            events_view(update.events@) == old(self)@.update_connection(index as int, time, delays).2,
    {
        let config = self.config;
        let connection = self.connections.connection_at_mut(index);
        let tick = connection.update(time, &config, delays);
        let addr = connection.address();
        let mut events: Vec<SocketEvent> = Vec::new();
        if let Some(error) = tick.error {
            events.push(SocketEvent::Error(error));
        }
        if connection.just_connected() {
            events.push(SocketEvent::NewConnection { addr });
        }
        proof {
            assert(events_view(events@) =~= old(self)@.update_connection(
                index as int,
                time,
                delays,
            ).2);
        }
        ConnectionUpdate { addr, datagrams: tick.datagrams, events }
    }

    /// A round of ticks at `time`: every connection has its tick, in order,
    /// with the waiting times at its position in `delays`, or none where the
    /// list is shorter; then the connections that are to be closed are
    /// removed. The events of a round are those of the updates, in order,
    /// and behind them the news of the closed connections.
    pub fn tick(&mut self, time: u128, delays: &Vec<Option<Delays>>) -> (round: Round)
        requires
            old(self).wf(),
        ensures
            final(self).wf(),
            final(self)@ == old(self)@.tick(time, delays@).0,
            updates_view(round.updates@) == old(self)@.tick(time, delays@).1,
            events_view(round.closed@) == old(self)@.tick(time, delays@).2,
    {
        let mut updates: Vec<ConnectionUpdate> = Vec::new();
        let mut index: usize = 0;
        proof {
            assert(updates_view(updates@) =~= Seq::<ConnectionUpdateView>::empty());
            assert(updates_view(updates@) + self@.tick_from(time, delays@, 0).1
                =~= self@.tick_from(time, delays@, 0).1);
        }
        while index < self.connections.len()
            invariant
                self.wf(),
                index <= self@.connections.len(),
                self@.tick_from(time, delays@, index as int).0 == old(self)@.tick_from(
                    time,
                    delays@,
                    0,
                ).0,
                updates_view(updates@) + self@.tick_from(time, delays@, index as int).1 == old(
                    self,
                )@.tick_from(time, delays@, 0).1,
            decreases self@.connections.len() - index,
        {
            let ghost before = self@;
            let ghost told = updates_view(updates@);
            let given = if index < delays.len() {
                delays[index]
            } else {
                None
            };
            let update = self.update_connection(index, time, given);
            proof {
                let rest = self@.tick_from(time, delays@, index + 1);
                assert(self@.connections.len() == before.connections.len());
                assert(before.tick_from(time, delays@, index as int) == (
                    rest.0,
                    seq![update@] + rest.1,
                ));
                assert(updates_view(updates@.push(update)) =~= told.push(update@));
                assert(told.push(update@) + rest.1 =~= told + (seq![update@] + rest.1));
            }
            updates.push(update);
            index += 1;
        }
        proof {
            assert(updates_view(updates@) + Seq::<ConnectionUpdateView>::empty() =~= updates_view(
                updates@,
            ));
        }
        let closed = self.remove_dropped();
        Round { updates, closed }
    }

    /// Removes the connections that are to be closed, and tells of each.
    pub fn remove_dropped(&mut self) -> (events: Vec<SocketEvent>)
        requires
            old(self).wf(),
        ensures
            final(self).wf(),
            final(self)@ == old(self)@.remove_dropped().0,
            events_view(events@) == old(self)@.remove_dropped().1,
    {
        let closed = self.connections.remove_dropped();
        let mut events: Vec<SocketEvent> = Vec::new();
        let mut i: usize = 0;
        while i < closed.len()
            invariant
                i <= closed.len(),
                events.len() == i,
                forall|k: int|
                    0 <= k < i ==> (#[trigger] events[k])@ == (SocketEventView::ClosedConnection {
                        addr: closed[k],
                    }),
            decreases closed.len() - i,
        {
            events.push(SocketEvent::ClosedConnection { addr: closed[i] });
            i += 1;
        }
        proof {
            assert(events_view(events@) =~= old(self)@.remove_dropped().1);
        }
        events
    }

    /// Takes in a datagram from `addr` that arrived at `time`.
    pub fn receive(&mut self, time: u128, addr: Address, bytes: &[u8]) -> (event: Option<SocketEvent>)
        requires
            old(self).wf(),
        ensures
            final(self).wf(),
            final(self)@ == old(self)@.receive(time, addr, bytes@).0,
            match event {
                Some(e) => old(self)@.receive(time, addr, bytes@).1 == Some(e@),
                None => old(self)@.receive(time, addr, bytes@).1.is_none(),
            },
    {
        let index = self.connections.position(addr);
        let connected = index < self.connections.len();
        if let Some(handshake) = Handshake::deserialize_handshake(bytes) {
            if handshake.protocol_id == self.config.protocol_id && !connected {
                return Some(SocketEvent::ConnectionRequest { addr });
            }
            return None;
        }
        if !connected {
            return None;
        }
        let packet = match Packet::deserialize(bytes) {
            Some(packet) => packet,
            None => {
                return Some(SocketEvent::Error(Error::MalformedPacket { addr }));
            },
        };
        let config = self.config;
        assert(connected_to(addr)(self@.connections[index as int]));
        let connection = self.connections.connection_at_mut(index);
        if connection.receive(time, &config, packet).is_err() {
            return Some(SocketEvent::Error(Error::MalformedPacket { addr }));
        }
        None
    }

    /// Hands the complete messages of every connection to the caller,
    /// connection by connection, each connection's messages in order.
    pub fn flush_messages(&mut self, time: u128) -> (events: Vec<SocketEvent>)
        requires
            old(self).wf(),
        ensures
            final(self).wf(),
            final(self)@ == old(self)@.flush_from(time, 0).0,
            events_view(events@) == old(self)@.flush_from(time, 0).1,
    {
        let mut events: Vec<SocketEvent> = Vec::new();
        let mut index: usize = 0;
        proof {
            assert(events_view(events@) =~= Seq::<SocketEventView>::empty());
            assert(events_view(events@) + self@.flush_from(time, 0).1 =~= self@.flush_from(
                time,
                0,
            ).1);
        }
        while index < self.connections.len()
            invariant
                self.wf(),
                index <= self@.connections.len(),
                self@.connections.len() == old(self)@.connections.len(),
                self@.flush_from(time, index as int).0 == old(self)@.flush_from(time, 0).0,
                events_view(events@) + self@.flush_from(time, index as int).1 == old(
                    self,
                )@.flush_from(time, 0).1,
            decreases self@.connections.len() - index,
        {
            let ghost before = self@;
            let ghost events_before = events_view(events@);
            let connection = self.connections.connection_at_mut(index);
            let addr = connection.address();
            let payloads = connection.flush_messages(time);
            let ghost flushed = before.connections[index as int].flush(time);
            let ghost rest = (SocketView {
                connections: before.connections.update(index as int, flushed.0),
                ..before
            }).flush_from(time, index + 1);
            proof {
                assert(self@ == (SocketView {
                    connections: before.connections.update(index as int, flushed.0),
                    ..before
                }));
                assert(before.flush_from(time, index as int) == (
                    rest.0,
                    flushed.1.map_values(received_event(addr)) + rest.1,
                ));
            }
            let ghost views = crate::connection::payloads_view(payloads@);
            for data in it: payloads.into_iter()
                invariant
                    it.seq() == payloads@,
                    views == crate::connection::payloads_view(payloads@),
                    events_view(events@) == events_before + views.take(it.index() as int).map_values(
                        received_event(addr),
                    ),
            {
                let ghost k = it.index() as int;
                let ghost previous = events@;
                assert(views[k] == data@);
                events.push(SocketEvent::Received { addr, data });
                proof {
                    let event = SocketEventView::Received { addr, data: views[k] };
                    assert(events_view(events@) =~= events_view(previous).push(event));
                    assert(views.take(k + 1).map_values(received_event(addr)) =~= views.take(
                        k,
                    ).map_values(received_event(addr)).push(event));
                }
            }
            proof {
                assert(views.take(views.len() as int) =~= views);
                assert((events_before + views.map_values(received_event(addr))) + rest.1
                    =~= events_before + (views.map_values(received_event(addr)) + rest.1));
            }
            index += 1;
        }
        proof {
            assert(events_view(events@) + Seq::<SocketEventView>::empty() =~= events_view(events@));
        }
        events
    }
}

} // verus!
