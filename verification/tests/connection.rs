use nifty_net::connection::{Connection, Tick};
use nifty_net::packet::{Acknowledgement, Blob, Fragment, Handshake, Heartbeat, Packet};
use nifty_net::{Address, Config, Delays, Error};

const MS: u128 = 1_000_000;

fn peer() -> Address {
    Address::V4 { host: 0x7f00_0001, port: 3000 }
}

fn config(mtu: u16) -> Config {
    Config { mtu, ..Config::default() }
}

fn delays(rtt: Option<u128>) -> Option<Delays> {
    rtt.map(|rtt| Delays { resend: rtt * 5 / 4, unreliable_drop: rtt * 4, blacklist_memory: rtt * 8 })
}

fn packet_of(blobs: Vec<Blob>) -> Packet {
    let mut packet = Packet::new();
    for blob in blobs {
        packet.push(blob);
    }
    packet
}

fn blobs_of(tick: &Tick) -> Vec<Vec<Blob>> {
    tick.datagrams.iter().map(|bytes| Packet::deserialize(bytes).unwrap().into_iter()).collect()
}

fn fragments_of(tick: &Tick) -> Vec<Fragment> {
    let mut fragments = Vec::new();
    for packet in blobs_of(tick) {
        for blob in packet {
            if let Blob::Fragment(fragment) = blob {
                fragments.push(fragment);
            }
        }
    }
    fragments
}

fn established(time: u128) -> Connection {
    let mut connection = Connection::new(time, peer(), false);
    assert!(connection.just_connected());
    connection
}

/// Gives the connection a round trip time estimate of 80 ms.
fn learn_rtt(connection: &mut Connection, config: &Config, time: u128) {
    let echo = packet_of(vec![Blob::HeartbeatResponse(Heartbeat::new(time - 80 * MS))]);
    assert_eq!(connection.receive(time, config, echo), Ok(()));
    assert_eq!(connection.round_trip_time(), Some(80 * MS));
}

#[test]
fn an_opening_connection_sends_only_handshakes() {
    let config = Config { protocol_id: 7, ..config(20) };
    let mut connection = Connection::new(0, peer(), true);
    assert!(!connection.just_connected());
    assert_eq!(connection.send(true, vec![1; 30]), Ok(()));

    let first = connection.update(0, &config, None);
    assert!(first.error.is_none());
    assert_eq!(first.datagrams, vec![Handshake { protocol_id: 7 }.serialize()]);

    // too early for the next handshake
    let second = connection.update(99 * MS, &config, None);
    assert!(second.datagrams.is_empty());

    let third = connection.update(100 * MS, &config, None);
    assert_eq!(third.datagrams.len(), 1);
    assert_eq!(Handshake::deserialize_handshake(&third.datagrams[0]), Some(Handshake { protocol_id: 7 }));

    let metrics = connection.metrics();
    assert_eq!(metrics.sent_packets, 2);
    assert_eq!(metrics.sent_bytes, 32);
    assert_eq!(metrics.reliable_message_count, 1);
    assert_eq!(metrics.unreliable_message_count, 0);
    assert_eq!(metrics.messages_in_transit, 1);
    assert_eq!(metrics.rtt, None);
    assert_eq!(connection.in_transit(), 1);
}

#[test]
fn a_heartbeat_completes_the_handshake() {
    let config = config(1500);
    let mut connection = Connection::new(0, peer(), true);
    let heartbeat = packet_of(vec![Blob::Heartbeat(Heartbeat::new(5 * MS))]);
    assert_eq!(connection.receive(10 * MS, &config, heartbeat), Ok(()));
    assert!(connection.just_connected());
    assert!(!connection.just_connected());

    let tick = connection.update(20 * MS, &config, None);
    let packets = blobs_of(&tick);
    assert_eq!(packets.len(), 1);
    // the own heartbeat is not yet due; the echo goes out
    assert_eq!(packets[0].len(), 1);
    match &packets[0][0] {
        Blob::HeartbeatResponse(heartbeat) => assert_eq!(heartbeat.time(), 5 * MS),
        _ => panic!(),
    }
    // echoed once
    let next = connection.update(30 * MS, &config, None);
    assert!(next.datagrams.is_empty());
}

#[test]
fn blobs_go_out_in_order() {
    let config = config(1500);
    let mut connection = established(0);
    assert_eq!(connection.send(false, vec![9, 9, 9]), Ok(()));
    let incoming = packet_of(vec![
        Blob::Heartbeat(Heartbeat::new(1 * MS)),
        Blob::Fragment(Fragment { send_ack: true, fragmentation_id: 4, total_size: 4, start: 0, data: vec![1, 2] }),
        Blob::Disconnect,
    ]);
    assert_eq!(connection.receive(600 * MS, &config, incoming), Ok(()));
    assert!(connection.should_drop());

    let tick = connection.update(700 * MS, &config, None);
    assert!(tick.error.is_none());
    let packets = blobs_of(&tick);
    assert_eq!(packets.len(), 1);
    let blobs = &packets[0];
    assert_eq!(blobs.len(), 5);
    match &blobs[0] {
        Blob::Fragment(fragment) => {
            assert!(!fragment.send_ack);
            assert_eq!(fragment.fragmentation_id, 0);
            assert_eq!(fragment.data, vec![9, 9, 9]);
        }
        _ => panic!(),
    }
    match &blobs[1] {
        Blob::Heartbeat(heartbeat) => assert_eq!(heartbeat.time(), 700 * MS),
        _ => panic!(),
    }
    match &blobs[2] {
        Blob::HeartbeatResponse(heartbeat) => assert_eq!(heartbeat.time(), 1 * MS),
        _ => panic!(),
    }
    match &blobs[3] {
        Blob::Acknowledgement(ack) => {
            assert_eq!(*ack, Acknowledgement { fragmentation_id: 4, start: 0, len: 2 })
        }
        _ => panic!(),
    }
    assert!(matches!(blobs[4], Blob::Disconnect));
    // the unreliable message counts as delivered after its wave
    assert_eq!(connection.in_transit(), 0);
    // the one packet is counted
    assert_eq!(connection.metrics().sent_packets, 1);
    assert_eq!(connection.metrics().sent_bytes, tick.datagrams[0].len() as u64);
}

#[test]
fn a_message_is_fragmented_to_the_mtu() {
    let config = config(20);
    let mut connection = established(0);
    let payload: Vec<u8> = (0..30).collect();
    assert_eq!(connection.send(true, payload.clone()), Ok(()));

    // the heartbeat is not yet due at 1 ms
    let tick = connection.update(1 * MS, &config, None);
    assert!(tick.error.is_none());
    let fragments = fragments_of(&tick);
    assert_eq!(fragments.len(), 5);
    let mut start = 0;
    for (i, fragment) in fragments.iter().enumerate() {
        assert!(fragment.send_ack);
        assert_eq!(fragment.total_size, 30);
        assert_eq!(fragment.start, start);
        assert_eq!(fragment.data.len(), if i < 4 { 7 } else { 2 });
        assert_eq!(fragment.data, payload[start as usize..start as usize + fragment.data.len()].to_vec());
        start += fragment.data.len() as u32;
    }
    // no packet is longer than the MTU
    let sizes: Vec<usize> = tick.datagrams.iter().map(|bytes| bytes.len()).collect();
    assert_eq!(sizes, vec![20, 20, 20, 20, 15]);
    // every packet is counted
    let metrics = connection.metrics();
    assert_eq!(metrics.sent_packets, 5);
    assert_eq!(metrics.sent_bytes, 95);
    assert_eq!(connection.in_transit(), 1);
}

#[test]
fn a_reliable_message_waits_for_the_round_trip_time() {
    let config = config(1500);
    let mut connection = established(0);
    assert_eq!(connection.send(true, vec![1, 2, 3]), Ok(()));
    assert_eq!(fragments_of(&connection.update(1 * MS, &config, None)).len(), 1);
    // sent, no round trip time: wait
    assert_eq!(fragments_of(&connection.update(400 * MS, &config, None)).len(), 0);
    // waiting times without an estimate are left aside
    let delays = Some(Delays { resend: 100 * MS, unreliable_drop: 400 * MS, blacklist_memory: 800 * MS });
    assert_eq!(fragments_of(&connection.update(450 * MS, &config, delays)).len(), 0);
    // sent at 1 ms, resend delay 100 ms
    learn_rtt(&mut connection, &config, 90 * MS);
    assert_eq!(fragments_of(&connection.update(100 * MS, &config, delays)).len(), 0);
    assert_eq!(fragments_of(&connection.update(101 * MS, &config, delays)).len(), 1);
    assert_eq!(fragments_of(&connection.update(200 * MS, &config, delays)).len(), 0);
    assert_eq!(fragments_of(&connection.update(201 * MS, &config, delays)).len(), 1);
    // an estimate without waiting times: wait
    assert_eq!(fragments_of(&connection.update(900 * MS, &config, None)).len(), 0);
}

#[test]
fn acknowledgements_deliver_a_message() {
    let config = config(1500);
    let mut connection = established(0);
    assert_eq!(connection.send(true, vec![0; 10]), Ok(()));
    let _ = connection.update(1 * MS, &config, None);
    let first = packet_of(vec![Blob::Acknowledgement(Acknowledgement { fragmentation_id: 0, start: 0, len: 6 })]);
    assert_eq!(connection.receive(2 * MS, &config, first), Ok(()));
    assert_eq!(connection.in_transit(), 1);
    // only what is undelivered is sent again
    learn_rtt(&mut connection, &config, 100 * MS);
    let delays = Some(Delays { resend: 0, unreliable_drop: 0, blacklist_memory: 0 });
    let again = fragments_of(&connection.update(3 * MS, &config, delays));
    assert_eq!(again.len(), 1);
    assert_eq!(again[0].start, 6);
    assert_eq!(again[0].data.len(), 4);
    // an acknowledgement for an unknown message is ignored
    let unknown = packet_of(vec![Blob::Acknowledgement(Acknowledgement { fragmentation_id: 9, start: 0, len: 6 })]);
    assert_eq!(connection.receive(4 * MS, &config, unknown), Ok(()));
    // an acknowledgement behind the message is malformed
    let outside = packet_of(vec![Blob::Acknowledgement(Acknowledgement { fragmentation_id: 0, start: 6, len: 5 })]);
    assert_eq!(connection.receive(4 * MS, &config, outside), Err(()));
    let rest = packet_of(vec![Blob::Acknowledgement(Acknowledgement { fragmentation_id: 0, start: 6, len: 4 })]);
    assert_eq!(connection.receive(5 * MS, &config, rest), Ok(()));
    // the delivered message leaves at the next tick and is not sent again
    assert_eq!(connection.in_transit(), 1);
    assert_eq!(fragments_of(&connection.update(6 * MS, &config, delays)).len(), 0);
    assert_eq!(connection.in_transit(), 0);
}

#[test]
fn a_complete_message_is_handed_over_once() {
    let config = config(1500);
    let mut connection = established(0);
    let piece = |start: u32, data: Vec<u8>| {
        packet_of(vec![Blob::Fragment(Fragment { send_ack: true, fragmentation_id: 11, total_size: 4, start, data })])
    };
    assert_eq!(connection.receive(1 * MS, &config, piece(2, vec![3, 4])), Ok(()));
    assert!(connection.flush_messages(1 * MS).is_empty());
    assert_eq!(connection.receive(2 * MS, &config, piece(0, vec![1, 2])), Ok(()));
    assert_eq!(connection.flush_messages(2 * MS), vec![vec![1, 2, 3, 4]]);
    assert!(connection.flush_messages(2 * MS).is_empty());

    // the peer sends a fragment again: it is acknowledged, and starts nothing
    let _ = connection.update(3 * MS, &config, None);
    assert_eq!(connection.receive(4 * MS, &config, piece(0, vec![1, 2, 3, 4])), Ok(()));
    assert!(connection.flush_messages(4 * MS).is_empty());
    let tick = connection.update(5 * MS, &config, None);
    let packets = blobs_of(&tick);
    assert_eq!(packets.len(), 1);
    assert_eq!(packets[0].len(), 1);
    match &packets[0][0] {
        Blob::Acknowledgement(ack) => {
            assert_eq!(*ack, Acknowledgement { fragmentation_id: 11, start: 0, len: 4 })
        }
        _ => panic!(),
    }
}

#[test]
fn the_blacklist_forgets() {
    let config = config(1500);
    let mut connection = established(0);
    let whole = || {
        packet_of(vec![Blob::Fragment(Fragment { send_ack: true, fragmentation_id: 11, total_size: 2, start: 0, data: vec![1, 2] })])
    };
    learn_rtt(&mut connection, &config, 100 * MS);
    assert_eq!(connection.receive(10 * MS, &config, whole()), Ok(()));
    assert_eq!(connection.flush_messages(10 * MS).len(), 1);
    let delays = Some(Delays { resend: 0, unreliable_drop: 0, blacklist_memory: 80 * MS });
    // remembered up to 90 ms
    let _ = connection.update(90 * MS, &config, delays);
    assert_eq!(connection.receive(90 * MS, &config, whole()), Ok(()));
    assert!(connection.flush_messages(90 * MS).is_empty());
    // forgotten at 91 ms: the identifier may be used anew
    let _ = connection.update(91 * MS, &config, delays);
    assert_eq!(connection.receive(91 * MS, &config, whole()), Ok(()));
    assert_eq!(connection.flush_messages(91 * MS), vec![vec![1, 2]]);
}

#[test]
fn an_incomplete_unreliable_message_is_given_up() {
    let config = config(1500);
    let mut connection = established(0);
    let piece = |send_ack: bool, id: u16| {
        packet_of(vec![Blob::Fragment(Fragment { send_ack, fragmentation_id: id, total_size: 30, start: 0, data: vec![1; 8] })])
    };
    assert_eq!(connection.receive(100 * MS, &config, piece(false, 1)), Ok(()));
    assert_eq!(connection.receive(100 * MS, &config, piece(true, 2)), Ok(()));
    let rest = |id: u16| {
        packet_of(vec![Blob::Fragment(Fragment { send_ack: id == 2, fragmentation_id: id, total_size: 30, start: 8, data: vec![2; 22] })])
    };
    let delays = Some(Delays { resend: 0, unreliable_drop: 600 * MS, blacklist_memory: 0 });
    // without a round trip time nothing is given up
    let _ = connection.update(5_000 * MS, &config, None);
    let _ = connection.update(5_000 * MS, &config, delays);
    learn_rtt(&mut connection, &config, 90 * MS);
    // kept while the drop delay has not passed
    let _ = connection.update(699 * MS, &config, delays);
    let mut kept = Connection::new(0, peer(), false);
    learn_rtt(&mut kept, &config, 90 * MS);
    assert_eq!(kept.receive(100 * MS, &config, piece(false, 1)), Ok(()));
    let _ = kept.update(699 * MS, &config, delays);
    assert_eq!(kept.receive(699 * MS, &config, rest(1)), Ok(()));
    assert_eq!(kept.flush_messages(699 * MS).len(), 1);
    // given up once it has passed
    let _ = connection.update(700 * MS, &config, delays);
    assert_eq!(connection.receive(701 * MS, &config, rest(1)), Ok(()));
    assert!(connection.flush_messages(701 * MS).is_empty());
    // the reliable one is never given up
    assert_eq!(connection.receive(702 * MS, &config, rest(2)), Ok(()));
    let done = connection.flush_messages(702 * MS);
    assert_eq!(done.len(), 1);
    assert_eq!(done[0][0..8], [1; 8]);
    assert_eq!(done[0][8..30], [2; 22]);
}

#[test]
fn the_round_trip_time_is_the_mean_of_the_newest_samples() {
    let config = Config { rtt_memory: 4, ..config(1500) };
    let mut connection = established(0);
    assert_eq!(connection.round_trip_time(), None);
    let echo = |sent: u128| packet_of(vec![Blob::HeartbeatResponse(Heartbeat::new(sent))]);
    assert_eq!(connection.receive(1_150 * MS, &config, echo(1_000 * MS)), Ok(()));
    assert_eq!(connection.round_trip_time(), Some(150 * MS));
    assert_eq!(connection.receive(2_050 * MS, &config, echo(2_000 * MS)), Ok(()));
    assert_eq!(connection.round_trip_time(), Some(100 * MS));
    // an echo from the future counts as zero
    assert_eq!(connection.receive(2_100 * MS, &config, echo(3_000 * MS)), Ok(()));
    assert_eq!(connection.round_trip_time(), Some(66_666_666));
    assert_eq!(connection.receive(2_200 * MS, &config, echo(2_100 * MS)), Ok(()));
    assert_eq!(connection.round_trip_time(), Some(75 * MS));
    // the fifth sample pushes the first out: 50, 0, 100, 200
    assert_eq!(connection.receive(2_400 * MS, &config, echo(2_200 * MS)), Ok(()));
    assert_eq!(connection.round_trip_time(), Some(87_500_000));
    assert_eq!(connection.metrics().rtt, Some(87_500_000));
}

#[test]
fn the_round_trip_time_converges() {
    // a one-way latency of 75 ms, sixteen heartbeat round trips
    let config = config(1500);
    let mut connection = established(0);
    for round in 0..16u128 {
        let sent = round * 500 * MS;
        let echo = packet_of(vec![Blob::HeartbeatResponse(Heartbeat::new(sent))]);
        assert_eq!(connection.receive(sent + 150 * MS, &config, echo), Ok(()));
    }
    let rtt = connection.round_trip_time().unwrap();
    assert!(rtt >= 150 * MS * 95 / 100 && rtt <= 150 * MS * 105 / 100);
    assert_eq!(rtt, 150 * MS);
}

#[test]
fn no_samples_are_kept_without_memory() {
    let config = Config { rtt_memory: 0, ..config(1500) };
    let mut connection = established(0);
    let echo = packet_of(vec![Blob::HeartbeatResponse(Heartbeat::new(0))]);
    assert_eq!(connection.receive(10 * MS, &config, echo), Ok(()));
    assert_eq!(connection.round_trip_time(), None);
}

#[test]
fn a_silent_peer_times_out() {
    let config = config(1500);
    let mut connection = established(1_000 * MS);
    let _ = connection.update(11_000 * MS, &config, None);
    assert!(!connection.should_drop());
    let tick = connection.update(11_000 * MS + 1, &config, None);
    assert!(connection.should_drop());
    // the disconnect goes out in the same tick
    let packets = blobs_of(&tick);
    assert!(matches!(packets.last().unwrap().last().unwrap(), Blob::Disconnect));
    // a packet keeps the connection alive
    let mut alive = established(1_000 * MS);
    assert_eq!(alive.receive(10_000 * MS, &config, Packet::new()), Ok(()));
    let _ = alive.update(15_000 * MS, &config, None);
    assert!(!alive.should_drop());
}

#[test]
fn dropping_sends_one_disconnect() {
    let config = config(1500);
    let mut connection = established(0);
    connection.drop();
    assert!(connection.should_drop());
    let tick = connection.update(1 * MS, &config, None);
    let packets = blobs_of(&tick);
    assert_eq!(packets.len(), 1);
    assert_eq!(packets[0].len(), 1);
    assert!(matches!(packets[0][0], Blob::Disconnect));
}

#[test]
fn a_pending_connection_sends_no_disconnect() {
    let config = config(1500);
    let mut connection = Connection::new(0, peer(), true);
    connection.drop();
    let tick = connection.update(1 * MS, &config, None);
    assert_eq!(tick.datagrams.len(), 1);
    assert!(Handshake::deserialize_handshake(&tick.datagrams[0]).is_some());
}

#[test]
fn an_mtu_too_small_for_a_fragment() {
    let config = config(8);
    let mut connection = established(0);
    assert_eq!(connection.send(true, vec![1; 30]), Ok(()));
    let tick = connection.update(1 * MS, &config, None);
    assert_eq!(tick.error, Some(Error::MtuTooSmall));
    assert!(tick.datagrams.is_empty());
    assert_eq!(connection.in_transit(), 1);
    // thirteen bytes leave no room for a byte of data, fourteen do
    let mut thirteen = established(0);
    assert_eq!(thirteen.send(true, vec![1; 2]), Ok(()));
    assert_eq!(thirteen.update(1 * MS, &self::config(13), None).error, Some(Error::MtuTooSmall));
    let mut fourteen = established(0);
    assert_eq!(fourteen.send(true, vec![1; 2]), Ok(()));
    let tick = fourteen.update(1 * MS, &self::config(14), None);
    assert!(tick.error.is_none());
    assert_eq!(fragments_of(&tick).len(), 2);
    assert_eq!(tick.datagrams.iter().map(|bytes| bytes.len()).collect::<Vec<usize>>(), vec![14, 14]);
    assert_eq!(fourteen.metrics().sent_packets, 2);
    assert_eq!(fourteen.metrics().sent_bytes, 28);
}

#[test]
fn an_mtu_too_small_for_a_heartbeat() {
    let mut connection = established(0);
    let tick = connection.update(500 * MS, &config(10), None);
    assert_eq!(tick.error, Some(Error::MtuTooSmall));
    let mut other = established(0);
    let tick = other.update(500 * MS, &config(11), None);
    assert!(tick.error.is_none());
    assert_eq!(tick.datagrams.len(), 1);
    assert_eq!(tick.datagrams[0].len(), 11);
    // the heartbeat packet is counted
    assert_eq!(other.metrics().sent_packets, 1);
    assert_eq!(other.metrics().sent_bytes, 11);
}

#[test]
fn identifiers_are_fifteen_bits_and_unique() {
    let config = config(1500);
    let mut connection = established(0);
    // one message that stays, under identifier 0
    assert_eq!(connection.send(true, vec![7]), Ok(()));
    let first = fragments_of(&connection.update(1 * MS, &config, None));
    assert_eq!(first[0].fragmentation_id, 0);
    // unreliable messages leave after their wave; the counter goes round
    let mut last_id = 0;
    for round in 0..0x8000u32 {
        assert_eq!(connection.send(false, vec![1]), Ok(()));
        let fragments = fragments_of(&connection.update(2 * MS, &config, None));
        assert_eq!(fragments.len(), 1);
        last_id = fragments[0].fragmentation_id;
        assert!(last_id < 0x8000);
        assert_ne!(last_id, 0, "round {}", round);
    }
    // 32767 identifiers were free: the counter has wrapped past the one in use
    assert_eq!(last_id, 1);
    assert_eq!(connection.in_transit(), 1);
    assert_eq!(connection.metrics().unreliable_message_count, 0x8000);
}

#[test]
fn a_malformed_blob_stops_a_packet() {
    let config = config(1500);
    let mut connection = established(0);
    let first = Fragment { send_ack: false, fragmentation_id: 1, total_size: 4, start: 0, data: vec![1, 2] };
    assert_eq!(connection.receive(1 * MS, &config, packet_of(vec![Blob::Fragment(first)])), Ok(()));
    let contradicting = Fragment { send_ack: false, fragmentation_id: 1, total_size: 8, start: 2, data: vec![3, 4] };
    let packet = packet_of(vec![
        Blob::Heartbeat(Heartbeat::new(0)),
        Blob::Fragment(contradicting),
        Blob::Disconnect,
    ]);
    assert_eq!(connection.receive(2 * MS, &config, packet), Err(()));
    // the blob in front took effect, the one behind did not
    assert!(!connection.should_drop());
    let tick = connection.update(3 * MS, &config, None);
    let packets = blobs_of(&tick);
    assert!(matches!(packets[0][0], Blob::HeartbeatResponse(_)));
    assert_eq!(connection.address(), peer());
}

#[test]
fn repeated_pieces_in_any_order_give_one_payload() {
    let config = config(1500);
    let mut connection = established(0);
    let piece = |start: u32, data: Vec<u8>| {
        Blob::Fragment(Fragment { send_ack: true, fragmentation_id: 21, total_size: 6, start, data })
    };
    let batch = packet_of(vec![
        piece(4, vec![5, 6]),
        piece(1, vec![2, 3]),
        piece(4, vec![5, 6]),
        piece(0, vec![1]),
        piece(2, vec![3, 4, 5]),
        piece(0, vec![1, 2, 3]),
    ]);
    assert_eq!(connection.receive(1 * MS, &config, batch), Ok(()));
    assert_eq!(connection.flush_messages(2 * MS), vec![vec![1, 2, 3, 4, 5, 6]]);
    assert!(connection.flush_messages(3 * MS).is_empty());
    assert_eq!(connection.receive(4 * MS, &config, packet_of(vec![piece(0, vec![1, 2, 3, 4, 5, 6])])), Ok(()));
    assert!(connection.flush_messages(5 * MS).is_empty());
}
