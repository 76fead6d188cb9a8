use nifty_net::connection::Connection;
use nifty_net::packer::PacketGrouper;
use nifty_net::packet::{Blob, Heartbeat, Packet};
use nifty_net::socket::Connections;
use nifty_net::Address;

fn peer(port: u16) -> Address {
    Address::V4 { host: 0x7f00_0001, port }
}

#[test]
fn connections_are_kept_by_peer() {
    let mut connections = Connections::new();
    assert_eq!(connections.len(), 0);
    assert!(connections.get_connection(peer(1)).is_none());
    assert!(connections.new_connection(Connection::new(5, peer(1), true)).is_ok());
    assert!(connections.new_connection(Connection::new(6, peer(2), false)).is_ok());
    // one connection for each peer
    assert!(connections.new_connection(Connection::new(7, peer(1), false)).is_err());
    assert_eq!(connections.len(), 2);
    assert_eq!(connections.position(peer(1)), 0);
    assert_eq!(connections.position(peer(2)), 1);
    assert_eq!(connections.position(peer(3)), 2);
    assert_eq!(connections.get_connection(peer(2)).unwrap().address(), peer(2));
    assert_eq!(connections.connection_at(0).address(), peer(1));

    connections.get_connection_mut(peer(2)).unwrap().drop();
    assert!(connections.get_connection(peer(2)).unwrap().should_drop());
    assert!(!connections.get_connection(peer(1)).unwrap().should_drop());
    assert!(connections.get_connection_mut(peer(3)).is_none());
    assert!(connections.connection_at_mut(0).send(true, vec![1]).is_ok());
    assert_eq!(connections.connection_at(0).in_transit(), 1);

    assert_eq!(connections.remove_dropped(), vec![peer(2)]);
    assert_eq!(connections.len(), 1);
    connections.remove_connection(peer(3));
    assert_eq!(connections.len(), 1);
    connections.remove_connection(peer(1));
    assert_eq!(connections.len(), 0);
}

#[test]
fn a_new_connection_is_handed_out() {
    let mut connections = Connections::new();
    let added = connections.new_connection(Connection::new(5, peer(9), false)).unwrap();
    assert_eq!(added.address(), peer(9));
    assert!(added.send(false, vec![1, 2]).is_ok());
    assert_eq!(connections.get_connection(peer(9)).unwrap().in_transit(), 1);
}

#[test]
fn the_packer_sends_full_packets_off() {
    let mut grouper = PacketGrouper::new(24, 10, 100);
    assert_eq!(grouper.space_left(), 22);
    assert_eq!(grouper.fragment_room(), 21);
    // an empty packet cannot make room
    assert!(!grouper.create_space());
    assert!(grouper.add(Blob::Heartbeat(Heartbeat::new(0))));
    assert_eq!(grouper.space_left(), 11);
    assert!(grouper.ensure_space(11));
    assert!(grouper.add(Blob::Heartbeat(Heartbeat::new(1_000_000))));
    assert_eq!(grouper.space_left(), 0);
    assert_eq!(grouper.fragment_room(), 0);
    assert_eq!(grouper.sent_packets(), 10);
    // the third heartbeat does not fit: the packet is sent off
    assert!(grouper.add(Blob::Heartbeat(Heartbeat::new(2_000_000))));
    assert_eq!(grouper.sent_packets(), 11);
    assert_eq!(grouper.sent_bytes(), 122);
    assert_eq!(grouper.space_left(), 11);
    grouper.push(Blob::Disconnect);
    grouper.finish();
    // the last packet is counted as well
    assert_eq!(grouper.sent_packets(), 12);
    assert_eq!(grouper.sent_bytes(), 136);
    grouper.finish();
    assert_eq!(grouper.sent_packets(), 12);
    let datagrams = grouper.into_datagrams();
    assert_eq!(datagrams.len(), 2);
    assert_eq!(Packet::deserialize(&datagrams[0]).unwrap().blob_count(), 2);
    assert_eq!(Packet::deserialize(&datagrams[1]).unwrap().blob_count(), 2);
}

#[test]
fn a_blob_that_fits_no_packet_is_refused() {
    let mut grouper = PacketGrouper::new(10, 0, 0);
    assert!(!grouper.add(Blob::Heartbeat(Heartbeat::new(0))));
    assert!(grouper.add(Blob::Disconnect));
    // the packet is sent off before the blob is refused
    assert!(!grouper.ensure_space(9));
    assert_eq!(grouper.sent_packets(), 1);
    assert_eq!(grouper.sent_bytes(), 3);
    let blobs = vec![Blob::Disconnect, Blob::Heartbeat(Heartbeat::new(0)), Blob::Disconnect];
    assert!(!grouper.add_all(blobs));
    // what was being filled is not among the datagrams
    assert_eq!(grouper.into_datagrams(), vec![vec![0, 1, 4], vec![0, 1, 4]]);
}
