use nifty_net::packet::{Blob, Handshake, Packet};
use nifty_net::socket::{Socket, SocketEvent};
use nifty_net::{Address, Config, Delays, Error};

const MS: u128 = 1_000_000;

fn client_addr() -> Address {
    Address::V4 { host: 0x0a00_0001, port: 4000 }
}

fn server_addr() -> Address {
    Address::V6 { host6: 1, port: 3000, flowinfo: 0, scope_id: 0 }
}

fn delays(rtt: Option<u128>) -> Option<Delays> {
    rtt.map(|rtt| Delays { resend: rtt * 5 / 4, unreliable_drop: rtt * 4, blacklist_memory: rtt * 8 })
}

/// One endpoint with what it has told its caller.
struct Endpoint {
    socket: Socket,
    accept: bool,
    received: Vec<(Address, Vec<u8>)>,
    connected: Vec<Address>,
    closed: Vec<Address>,
    requests: Vec<Address>,
    errors: Vec<Error>,
    sent_datagrams: usize,
}

impl Endpoint {
    fn new(config: Config, accept: bool) -> Self {
        Endpoint {
            socket: Socket::new(config),
            accept,
            received: Vec::new(),
            connected: Vec::new(),
            closed: Vec::new(),
            requests: Vec::new(),
            errors: Vec::new(),
            sent_datagrams: 0,
        }
    }

    fn note(&mut self, event: SocketEvent) {
        match event {
            SocketEvent::Received { addr, data } => self.received.push((addr, data)),
            SocketEvent::NewConnection { addr } => self.connected.push(addr),
            SocketEvent::ClosedConnection { addr } => self.closed.push(addr),
            SocketEvent::ConnectionRequest { addr } => self.requests.push(addr),
            SocketEvent::Error(error) => self.errors.push(error),
        }
    }

    /// The first half of an update: the ticks. Returns what goes on the wire.
    fn tick(&mut self, now: u128) -> Vec<(Address, Vec<u8>)> {
        let mut wire = Vec::new();
        let delays = (0..self.socket.connection_count())
            .map(|index| delays(self.socket.round_trip_time_at(index)))
            .collect();
        let round = self.socket.tick(now, &delays);
        for update in round.updates {
            for datagram in update.datagrams {
                self.sent_datagrams += 1;
                wire.push((update.addr, datagram));
            }
            for event in update.events {
                self.note(event);
            }
        }
        for event in round.closed {
            self.note(event);
        }
        wire
    }

    /// The second half of an update: what arrived, and the complete messages.
    fn take(&mut self, now: u128, from: Address, datagrams: Vec<Vec<u8>>) {
        for bytes in datagrams {
            if let Some(event) = self.socket.receive(now, from, &bytes) {
                if let SocketEvent::ConnectionRequest { addr } = event {
                    if self.accept {
                        assert_eq!(self.socket.accept_connection(now, addr), Ok(()));
                    }
                }
                self.note(event);
            }
        }
        for event in self.socket.flush_messages(now) {
            self.note(event);
        }
    }
}

/// Runs client and server against each other for `rounds` updates of 10 ms.
/// `lose` says of the nth datagram from the client whether the link drops it.
fn run(
    client: &mut Endpoint,
    server: &mut Endpoint,
    start: u128,
    rounds: u128,
    mut lose: impl FnMut(usize, &[u8]) -> bool,
) -> u128 {
    let mut now = start;
    let mut count = 0;
    for _ in 0..rounds {
        now += 10 * MS;
        let to_server: Vec<Vec<u8>> = client
            .tick(now)
            .into_iter()
            .map(|(addr, bytes)| {
                assert_eq!(addr, server_addr());
                bytes
            })
            .filter(|bytes| {
                count += 1;
                !lose(count - 1, bytes)
            })
            .collect();
        let to_client: Vec<Vec<u8>> = server
            .tick(now)
            .into_iter()
            .map(|(addr, bytes)| {
                assert_eq!(addr, client_addr());
                bytes
            })
            .collect();
        server.take(now, client_addr(), to_server);
        client.take(now, server_addr(), to_client);
    }
    now
}

fn small() -> Config {
    Config { mtu: 20, ..Config::default() }
}

fn has_fragment(bytes: &[u8]) -> bool {
    match Packet::deserialize(bytes) {
        Some(packet) => packet.into_iter().iter().any(|blob| matches!(blob, Blob::Fragment(_))),
        None => false,
    }
}

#[test]
fn tiny_reliable_message_lossless() {
    let mut client = Endpoint::new(small(), false);
    let mut server = Endpoint::new(small(), true);
    assert_eq!(client.socket.open_connection(1_000 * MS, server_addr()), Ok(()));
    assert_eq!(client.socket.send(server_addr(), true, vec![1; 30]), Ok(()));
    assert_eq!(client.socket.messages_in_transit(server_addr()), Ok(1));

    run(&mut client, &mut server, 1_000 * MS, 100, |_, _| false);

    assert_eq!(server.requests, vec![client_addr()]);
    assert_eq!(server.connected, vec![client_addr()]);
    assert_eq!(client.connected, vec![server_addr()]);
    assert_eq!(server.received, vec![(client_addr(), vec![1; 30])]);
    assert!(client.received.is_empty());
    assert_eq!(client.socket.messages_in_transit(server_addr()), Ok(0));
    assert!(client.errors.is_empty());
    assert!(server.errors.is_empty());
    assert!(client.closed.is_empty());

    assert_eq!(client.socket.close_connection(server_addr()), Ok(()));
    run(&mut client, &mut server, 2_000 * MS, 2, |_, _| false);
    assert_eq!(client.closed, vec![server_addr()]);
    assert_eq!(server.closed, vec![client_addr()]);
    assert_eq!(client.socket.connection_count(), 0);
    assert_eq!(server.socket.connection_count(), 0);
    assert_eq!(client.socket.messages_in_transit(server_addr()), Err(()));
}

#[test]
fn handshake_rejection() {
    let mut client = Endpoint::new(Config { protocol_id: 7, ..small() }, false);
    let mut server = Endpoint::new(Config { protocol_id: 8, ..small() }, true);
    assert_eq!(client.socket.open_connection(0, server_addr()), Ok(()));

    // ten seconds pass from the opening on
    let now = run(&mut client, &mut server, 0, 1_000, |_, _| false);
    assert_eq!(now, 10_000 * MS);
    assert!(server.requests.is_empty());
    assert!(client.connected.is_empty());
    assert!(client.closed.is_empty());
    assert_eq!(server.socket.connection_count(), 0);
    // a handshake every 100 ms
    assert_eq!(client.sent_datagrams, 100);

    // one more update, and the timeout has passed
    run(&mut client, &mut server, now, 1, |_, _| false);
    assert_eq!(client.closed, vec![server_addr()]);
    assert!(client.connected.is_empty());
    assert_eq!(client.socket.connection_count(), 0);
}

#[test]
fn a_refused_request_opens_nothing() {
    let mut client = Endpoint::new(small(), false);
    let mut server = Endpoint::new(small(), false);
    assert_eq!(client.socket.open_connection(0, server_addr()), Ok(()));
    run(&mut client, &mut server, 0, 30, |_, _| false);
    // every handshake asks anew
    assert_eq!(server.requests.len(), 3);
    assert_eq!(server.socket.connection_count(), 0);
    assert!(client.connected.is_empty());
}

#[test]
fn fragment_loss_and_retransmit() {
    let mut baseline_client = Endpoint::new(small(), false);
    let mut baseline_server = Endpoint::new(small(), true);
    assert_eq!(baseline_client.socket.open_connection(1_000 * MS, server_addr()), Ok(()));
    assert_eq!(baseline_client.socket.send(server_addr(), true, vec![1; 30]), Ok(()));
    run(&mut baseline_client, &mut baseline_server, 1_000 * MS, 300, |_, _| false);

    let mut client = Endpoint::new(small(), false);
    let mut server = Endpoint::new(small(), true);
    assert_eq!(client.socket.open_connection(1_000 * MS, server_addr()), Ok(()));
    assert_eq!(client.socket.send(server_addr(), true, vec![1; 30]), Ok(()));
    // the link loses about half of the client's datagrams
    let mut state: u64 = 0x2545_f491_4f6c_dd1d;
    let mut lost = 0;
    run(&mut client, &mut server, 1_000 * MS, 300, |_, _| {
        state ^= state << 13;
        state ^= state >> 7;
        state ^= state << 17;
        if state % 2 == 0 {
            lost += 1;
            true
        } else {
            false
        }
    });
    assert!(lost > 0);

    assert_eq!(server.received, vec![(client_addr(), vec![1; 30])]);
    assert_eq!(client.socket.messages_in_transit(server_addr()), Ok(0));
    assert!(client.sent_datagrams >= baseline_client.sent_datagrams);
    assert_eq!(baseline_server.received.len(), 1);
}

#[test]
fn unreliable_drop() {
    let mut client = Endpoint::new(small(), false);
    let mut server = Endpoint::new(small(), true);
    assert_eq!(client.socket.open_connection(1_000 * MS, server_addr()), Ok(()));
    // let the connection stand and the round trip time be known
    run(&mut client, &mut server, 1_000 * MS, 100, |_, _| false);
    assert!(server.socket.round_trip_time_at(0).is_some());

    assert_eq!(client.socket.send(server_addr(), false, vec![1; 30]), Ok(()));
    // the second packet with a fragment is lost
    let mut fragments = 0;
    run(&mut client, &mut server, 2_000 * MS, 200, |_, bytes| {
        if has_fragment(bytes) {
            fragments += 1;
            fragments == 2
        } else {
            false
        }
    });
    assert_eq!(fragments, 5);
    assert!(server.received.is_empty());
    // sent once, and counted as delivered
    assert_eq!(client.socket.messages_in_transit(server_addr()), Ok(0));

    // the partial message is gone: the missing fragment alone completes nothing
    let mut packet = Packet::new();
    packet.push(Blob::Fragment(nifty_net::packet::Fragment {
        send_ack: false,
        fragmentation_id: 0,
        total_size: 30,
        start: 7,
        data: vec![1; 7],
    }));
    server.take(4_000 * MS, client_addr(), vec![packet.serialize()]);
    assert!(server.received.is_empty());
    assert!(server.errors.is_empty());
}

#[test]
fn a_late_fragment_completes_a_message_that_is_kept() {
    let mut client = Endpoint::new(small(), false);
    let mut server = Endpoint::new(small(), true);
    assert_eq!(client.socket.open_connection(1_000 * MS, server_addr()), Ok(()));
    run(&mut client, &mut server, 1_000 * MS, 100, |_, _| false);
    assert_eq!(client.socket.send(server_addr(), false, vec![1; 30]), Ok(()));
    // the second packet with a fragment is lost; one update, so nothing is given up yet
    let mut fragments = 0;
    let now = run(&mut client, &mut server, 2_000 * MS, 1, |_, bytes| {
        if has_fragment(bytes) {
            fragments += 1;
            fragments == 2
        } else {
            false
        }
    });
    assert!(server.received.is_empty());
    let mut packet = Packet::new();
    packet.push(Blob::Fragment(nifty_net::packet::Fragment {
        send_ack: false,
        fragmentation_id: 0,
        total_size: 30,
        start: 7,
        data: vec![1; 7],
    }));
    server.take(now, client_addr(), vec![packet.serialize()]);
    assert_eq!(server.received, vec![(client_addr(), vec![1; 30])]);
}

#[test]
fn unknown_peers_are_ignored() {
    let mut server = Endpoint::new(small(), true);
    let mut packet = Packet::new();
    packet.push(Blob::Disconnect);
    server.take(0, client_addr(), vec![packet.serialize(), vec![1, 2, 3]]);
    assert!(server.errors.is_empty());
    assert!(server.requests.is_empty());
    assert_eq!(server.socket.connection_count(), 0);
}

#[test]
fn malformed_packets_are_reported() {
    let mut server = Endpoint::new(small(), true);
    server.take(0, client_addr(), vec![Handshake { protocol_id: 0 }.serialize()]);
    assert_eq!(server.socket.connection_count(), 1);
    server.take(0, client_addr(), vec![vec![1, 2, 3]]);
    assert_eq!(server.errors, vec![Error::MalformedPacket { addr: client_addr() }]);
    // the connection stays
    assert_eq!(server.socket.connection_count(), 1);
    // a second handshake is ignored
    server.take(0, client_addr(), vec![Handshake { protocol_id: 0 }.serialize()]);
    assert_eq!(server.requests, vec![client_addr()]);
    assert_eq!(server.socket.address_at(0), client_addr());
}

#[test]
fn an_mtu_too_small_is_reported() {
    let mut client = Endpoint::new(Config { mtu: 8, ..Config::default() }, false);
    let mut server = Endpoint::new(Config { mtu: 8, ..Config::default() }, true);
    assert_eq!(client.socket.open_connection(0, server_addr()), Ok(()));
    assert_eq!(server.socket.accept_connection(0, client_addr()), Ok(()));
    assert_eq!(server.socket.send(client_addr(), true, vec![1; 30]), Ok(()));
    let wire = server.tick(1 * MS);
    assert!(wire.is_empty());
    assert_eq!(server.errors, vec![Error::MtuTooSmall]);
    assert_eq!(server.connected, vec![client_addr()]);
    // the socket survives
    assert_eq!(server.socket.connection_count(), 1);
}

#[test]
fn requests_without_a_connection_fail() {
    let mut socket = Socket::new(Config::default());
    assert_eq!(socket.config().mtu, 1500);
    assert_eq!(socket.send(server_addr(), true, vec![1]), Err(()));
    assert_eq!(socket.close_connection(server_addr()), Err(()));
    assert_eq!(socket.messages_in_transit(server_addr()), Err(()));
    assert_eq!(socket.open_connection(0, server_addr()), Ok(()));
    assert_eq!(socket.open_connection(5, server_addr()), Err(()));
    assert_eq!(socket.accept_connection(5, server_addr()), Err(()));
    assert_eq!(socket.open_connection(5, client_addr()), Ok(()));
    assert_eq!(socket.connection_count(), 2);
    assert_eq!(socket.send(server_addr(), true, vec![1]), Ok(()));
    assert_eq!(socket.send(server_addr(), false, Vec::new()), Ok(()));
    assert_eq!(socket.messages_in_transit(server_addr()), Ok(2));
    assert_eq!(socket.messages_in_transit(client_addr()), Ok(0));
}

#[test]
fn closing_sends_a_disconnect_and_tells_once() {
    let mut client = Endpoint::new(small(), false);
    let mut server = Endpoint::new(small(), true);
    assert_eq!(client.socket.open_connection(1_000 * MS, server_addr()), Ok(()));
    run(&mut client, &mut server, 1_000 * MS, 10, |_, _| false);
    assert_eq!(client.connected, vec![server_addr()]);

    assert_eq!(client.socket.close_connection(server_addr()), Ok(()));
    let wire = client.tick(2_000 * MS);
    assert_eq!(client.closed, vec![server_addr()]);
    let blobs: Vec<Blob> = wire
        .iter()
        .flat_map(|(_, bytes)| Packet::deserialize(bytes).unwrap().into_iter())
        .collect();
    assert_eq!(blobs.iter().filter(|blob| matches!(blob, Blob::Disconnect)).count(), 1);
    assert!(matches!(blobs.last(), Some(Blob::Disconnect)));

    // nothing follows for the peer
    let before = (client.received.len(), client.connected.len(), client.closed.len(), client.errors.len());
    for (_, bytes) in server.tick(2_000 * MS) {
        client.take(2_000 * MS, server_addr(), vec![bytes]);
    }
    assert!(client.tick(2_010 * MS).is_empty());
    let after = (client.received.len(), client.connected.len(), client.closed.len(), client.errors.len());
    assert_eq!(before, after);
}

#[test]
fn a_round_ticks_every_connection_and_then_closes() {
    let mut socket = Socket::new(Config::default());
    let first = Address::V4 { host: 1, port: 1 };
    let second = Address::V4 { host: 1, port: 2 };
    let third = Address::V4 { host: 1, port: 3 };
    assert_eq!(socket.accept_connection(0, first), Ok(()));
    assert_eq!(socket.open_connection(0, second), Ok(()));
    assert_eq!(socket.accept_connection(0, third), Ok(()));
    assert_eq!(socket.close_connection(first), Ok(()));
    // waiting times for the first connection only
    let round = socket.tick(500 * MS, &vec![None]);
    assert_eq!(round.updates.len(), 3);
    assert_eq!(round.updates[0].addr, first);
    assert_eq!(round.updates[1].addr, second);
    assert_eq!(round.updates[2].addr, third);
    // the accepted connections stand, the opened one sends its handshake
    assert!(matches!(round.updates[0].events[..], [SocketEvent::NewConnection { addr }] if addr == first));
    assert!(round.updates[1].events.is_empty());
    assert_eq!(round.updates[1].datagrams, vec![Handshake { protocol_id: 0 }.serialize()]);
    assert!(matches!(round.updates[2].events[..], [SocketEvent::NewConnection { addr }] if addr == third));
    // the closed connection has sent its disconnect and is gone
    let blobs = Packet::deserialize(&round.updates[0].datagrams[0]).unwrap().into_iter();
    assert!(matches!(blobs.last(), Some(Blob::Disconnect)));
    assert!(matches!(round.closed[..], [SocketEvent::ClosedConnection { addr }] if addr == first));
    assert_eq!(socket.connection_count(), 2);
    assert_eq!(socket.address_at(0), second);
    assert_eq!(socket.messages_in_transit(first), Err(()));
    // the next round tells nothing of it
    let round = socket.tick(510 * MS, &Vec::new());
    assert_eq!(round.updates.len(), 2);
    assert!(round.closed.is_empty());
}

#[test]
fn two_peers_are_served_in_order() {
    let mut server = Endpoint::new(Config::default(), true);
    let first = Address::V4 { host: 1, port: 1 };
    let second = Address::V4 { host: 1, port: 2 };
    server.take(0, first, vec![Handshake { protocol_id: 0 }.serialize()]);
    server.take(0, second, vec![Handshake { protocol_id: 0 }.serialize()]);
    let message = |id: u16, byte: u8| {
        let mut packet = Packet::new();
        packet.push(Blob::Fragment(nifty_net::packet::Fragment {
            send_ack: false,
            fragmentation_id: id,
            total_size: 1,
            start: 0,
            data: vec![byte],
        }));
        packet.serialize()
    };
    assert!(server.socket.receive(5, second, &message(0, 20)).is_none());
    assert!(server.socket.receive(5, first, &message(0, 10)).is_none());
    assert!(server.socket.receive(5, first, &message(1, 11)).is_none());
    for event in server.socket.flush_messages(5) {
        server.note(event);
    }
    assert_eq!(server.received, vec![(first, vec![10]), (first, vec![11]), (second, vec![20])]);
}

#[test]
fn repeated_datagrams_tell_of_a_message_once() {
    let mut server = Endpoint::new(Config::default(), true);
    assert_eq!(server.socket.accept_connection(0, client_addr()), Ok(()));
    let datagram = |start: u32, data: Vec<u8>| {
        let mut packet = Packet::new();
        packet.push(Blob::Fragment(nifty_net::packet::Fragment {
            send_ack: true,
            fragmentation_id: 3,
            total_size: 5,
            start,
            data,
        }));
        packet.serialize()
    };
    let datagrams = vec![
        datagram(3, vec![4, 5]),
        datagram(0, vec![1, 2]),
        datagram(3, vec![4, 5]),
        datagram(1, vec![2, 3]),
        datagram(0, vec![1, 2]),
    ];
    server.take(1 * MS, client_addr(), datagrams);
    assert_eq!(server.received, vec![(client_addr(), vec![1, 2, 3, 4, 5])]);
    assert!(server.errors.is_empty());
    server.take(2 * MS, client_addr(), vec![datagram(0, vec![1, 2, 3, 4, 5])]);
    assert_eq!(server.received.len(), 1);
    assert!(server.errors.is_empty());
}
