use nifty_net::packet::{Acknowledgement, Blob, Fragment, Handshake, Heartbeat, Packet};

fn sample_fragment() -> Fragment {
    Fragment { send_ack: true, fragmentation_id: 80, total_size: 10, start: 5, data: vec![1, 2, 3, 4, 5] }
}

#[test]
fn whole_fragment_size() {
    let fragment = Fragment {
        send_ack: true,
        fragmentation_id: 10,
        total_size: 15,
        start: 8,
        data: vec![1, 2, 3, 4, 5],
    };

    let mut buffer = Vec::new();
    fragment.serialize(&mut buffer);

    assert_eq!(fragment.size(), buffer.len() as u16);
}

#[test]
fn split_fragment_size() {
    let fragment = Fragment {
        send_ack: false,
        fragmentation_id: 50,
        total_size: 10,
        start: 5,
        data: vec![1, 2, 3, 4, 5],
    };

    let mut buffer = Vec::new();
    fragment.serialize(&mut buffer);

    assert_eq!(fragment.size(), buffer.len() as u16);
}

#[test]
fn blob_size() {
    let blob = Blob::Fragment(sample_fragment());

    let mut buffer = Vec::new();
    blob.serialize(&mut buffer);

    assert_eq!(blob.size(), buffer.len() as u16);
}

#[test]
fn fragment_serialization() {
    let fragment = sample_fragment();

    let mut buffer = Vec::new();
    fragment.serialize(&mut buffer);

    let deserialized = Fragment::deserialize(&buffer).unwrap();

    assert_eq!(fragment.send_ack, deserialized.send_ack);
    assert_eq!(fragment.fragmentation_id, deserialized.fragmentation_id);
    assert_eq!(fragment.total_size, deserialized.total_size);
    assert_eq!(fragment.start, deserialized.start);
    assert_eq!(fragment.data, deserialized.data);
}

#[test]
fn blob_serialization() {
    let blob = Blob::Fragment(sample_fragment());

    let mut buffer = Vec::new();
    blob.serialize(&mut buffer);

    let deserialized = Blob::deserialize(&buffer).unwrap();

    match deserialized {
        Blob::Fragment(_) => (),
        _ => panic!(),
    }
}

#[test]
fn packet_size() {
    let mut packet = Packet::new();
    packet.push(Blob::Fragment(sample_fragment()));
    packet.push(Blob::Fragment(sample_fragment()));

    let bytes = packet.serialize();

    assert_eq!(packet.size(), bytes.len() as u16);
}

#[test]
fn packet_serialization() {
    let mut packet = Packet::new();
    packet.push(Blob::Fragment(sample_fragment()));
    packet.push(Blob::Fragment(sample_fragment()));

    let bytes = packet.serialize();
    let deserialized = Packet::deserialize(&bytes).unwrap();

    assert_eq!(packet.blob_count(), deserialized.blob_count());
}

#[test]
fn fragment_bytes_are_big_endian() {
    let fragment = Fragment {
        send_ack: true,
        fragmentation_id: 0x1234,
        total_size: 0x0102_0304,
        start: 0x0000_0a0b,
        data: vec![0xff, 0xee],
    };
    let mut buffer = vec![0x77];
    fragment.serialize(&mut buffer);
    assert_eq!(
        buffer,
        vec![0x77, 0x92, 0x34, 0x01, 0x02, 0x03, 0x04, 0x00, 0x00, 0x0a, 0x0b, 0xff, 0xee]
    );
}

#[test]
fn unreliable_fragment_has_clear_top_bit() {
    let fragment = Fragment { send_ack: false, fragmentation_id: 0x7fff, total_size: 1, start: 0, data: vec![9] };
    let mut buffer = Vec::new();
    fragment.serialize(&mut buffer);
    assert_eq!(&buffer[0..2], &[0x7f, 0xff]);
    let decoded = Fragment::deserialize(&buffer).unwrap();
    assert!(!decoded.send_ack);
    assert_eq!(decoded.fragmentation_id, 0x7fff);
}

#[test]
fn packet_bytes_are_length_prefixed() {
    let mut packet = Packet::new();
    packet.push(Blob::Acknowledgement(Acknowledgement { fragmentation_id: 3, start: 0x10, len: 7 }));
    packet.push(Blob::Disconnect);
    let bytes = packet.serialize();
    assert_eq!(
        bytes,
        vec![0, 9, 3, 0, 3, 0, 0, 0, 0x10, 0, 7, 0, 1, 4]
    );
    assert_eq!(packet.size(), 14);
    assert_eq!(packet.space_left(20), 4);
    assert_eq!(packet.space_left(16), 0);
    assert_eq!(packet.space_left(15), 0);
}

#[test]
fn empty_packet_space() {
    let packet = Packet::new();
    assert_eq!(packet.size(), 0);
    assert_eq!(packet.blob_count(), 0);
    assert_eq!(packet.space_left(20), 18);
    assert_eq!(packet.space_left(2), 0);
    assert_eq!(packet.space_left(0), 0);
    assert_eq!(packet.serialize(), Vec::<u8>::new());
}

#[test]
fn every_blob_kind_round_trips() {
    let mut packet = Packet::new();
    packet.push(Blob::Fragment(sample_fragment()));
    packet.push(Blob::Heartbeat(Heartbeat::new(1_500_000_000)));
    packet.push(Blob::HeartbeatResponse(Heartbeat::new(2_000_000)));
    packet.push(Blob::Acknowledgement(Acknowledgement { fragmentation_id: 80, start: 5, len: 5 }));
    packet.push(Blob::Disconnect);
    let bytes = packet.serialize();
    assert_eq!(bytes.len(), 2 + 16 + 2 + 9 + 2 + 9 + 2 + 9 + 2 + 1);
    let blobs = Packet::deserialize(&bytes).unwrap().into_iter();
    assert_eq!(blobs.len(), 5);
    match &blobs[0] {
        Blob::Fragment(fragment) => {
            assert!(fragment.send_ack);
            assert_eq!(fragment.fragmentation_id, 80);
            assert_eq!(fragment.total_size, 10);
            assert_eq!(fragment.start, 5);
            assert_eq!(fragment.data, vec![1, 2, 3, 4, 5]);
        }
        _ => panic!(),
    }
    match &blobs[1] {
        Blob::Heartbeat(heartbeat) => assert_eq!(heartbeat.time(), 1_500_000_000),
        _ => panic!(),
    }
    match &blobs[2] {
        Blob::HeartbeatResponse(heartbeat) => assert_eq!(heartbeat.time(), 2_000_000),
        _ => panic!(),
    }
    match &blobs[3] {
        Blob::Acknowledgement(ack) => {
            assert_eq!(*ack, Acknowledgement { fragmentation_id: 80, start: 5, len: 5 })
        }
        _ => panic!(),
    }
    assert!(matches!(blobs[4], Blob::Disconnect));
}

#[test]
fn reserialized_fragment_has_the_size_of_its_bytes() {
    let bytes: Vec<u8> = vec![0x80, 0x07, 0, 0, 0, 9, 0, 0, 0, 2, 10, 20, 30];
    let fragment = Fragment::deserialize(&bytes).unwrap();
    assert_eq!(fragment.size() as usize, bytes.len());
    let mut again = Vec::new();
    fragment.serialize(&mut again);
    assert_eq!(again, bytes);
}

#[test]
fn heartbeat_carries_milliseconds() {
    assert_eq!(Heartbeat::new(1_999_999).time(), 1_000_000);
    assert_eq!(Heartbeat::new(999_999).time(), 0);
    assert_eq!(Heartbeat::new(75_000_000).size(), 8);
    let wrapped = Heartbeat::new(1_000_000 * (1u128 << 64) + 5_000_000);
    assert_eq!(wrapped.time(), 5_000_000);
}

#[test]
fn acknowledgement_of_a_fragment() {
    let ack = sample_fragment().acknowledgement().unwrap();
    assert_eq!(ack, Acknowledgement { fragmentation_id: 80, start: 5, len: 5 });
    assert_eq!(ack.size(), 8);
    let unreliable = Fragment { send_ack: false, fragmentation_id: 80, total_size: 10, start: 5, data: vec![1] };
    assert!(unreliable.acknowledgement().is_none());
}

#[test]
fn short_fragment_is_refused() {
    assert!(Fragment::deserialize(&[0, 1, 0, 0, 0, 4, 0, 0, 0]).is_none());
    assert!(Fragment::deserialize(&[]).is_none());
    let header_only = Fragment::deserialize(&[0, 1, 0, 0, 0, 4, 0, 0, 0, 4]).unwrap();
    assert_eq!(header_only.data, Vec::<u8>::new());
}

#[test]
fn fragment_outside_its_message_is_refused() {
    // total size 4, start 3, two bytes of data
    assert!(Fragment::deserialize(&[0, 1, 0, 0, 0, 4, 0, 0, 0, 3, 7, 7]).is_none());
    // start behind the total size
    assert!(Fragment::deserialize(&[0, 1, 0, 0, 0, 4, 0, 0, 0, 5]).is_none());
    // exactly at the end
    assert!(Fragment::deserialize(&[0, 1, 0, 0, 0, 4, 0, 0, 0, 3, 7]).is_some());
}

#[test]
fn malformed_blobs_are_refused() {
    assert!(Blob::deserialize(&[]).is_none());
    assert!(Blob::deserialize(&[5]).is_none());
    assert!(Blob::deserialize(&[255, 0, 0]).is_none());
    // heartbeat with seven and with nine bytes
    assert!(Blob::deserialize(&[1, 0, 0, 0, 0, 0, 0, 0]).is_none());
    assert!(Blob::deserialize(&[2, 0, 0, 0, 0, 0, 0, 0, 0, 0]).is_none());
    assert!(Blob::deserialize(&[1, 0, 0, 0, 0, 0, 0, 0, 0]).is_some());
    // acknowledgement with trailing garbage
    assert!(Blob::deserialize(&[3, 0, 1, 0, 0, 0, 0, 0, 1, 9]).is_none());
    assert!(Blob::deserialize(&[3, 0, 1, 0, 0, 0, 0, 0, 1]).is_some());
    // disconnect with a body
    assert!(Blob::deserialize(&[4, 0]).is_none());
    assert!(matches!(Blob::deserialize(&[4]), Some(Blob::Disconnect)));
}

#[test]
fn malformed_packets_are_refused() {
    // a lone byte cannot hold a length
    assert!(Packet::deserialize(&[0]).is_none());
    // the length reaches behind the end
    assert!(Packet::deserialize(&[0, 2, 4]).is_none());
    // an empty blob
    assert!(Packet::deserialize(&[0, 0]).is_none());
    // a good blob and trailing garbage
    assert!(Packet::deserialize(&[0, 1, 4, 0]).is_none());
    assert!(Packet::deserialize(&[0, 1, 4, 0, 1, 9]).is_none());
    // good
    assert_eq!(Packet::deserialize(&[0, 1, 4]).unwrap().blob_count(), 1);
    assert_eq!(Packet::deserialize(&[0, 1, 4, 0, 1, 4]).unwrap().blob_count(), 2);
    assert_eq!(Packet::deserialize(&[]).unwrap().blob_count(), 0);
}

#[test]
fn handshake_bytes() {
    let bytes = Handshake { protocol_id: 0x0102_0304_0506_0708 }.serialize();
    assert_eq!(
        bytes,
        vec![b'N', b'I', b'F', b'T', b'Y', b'-', b'H', b'S', 1, 2, 3, 4, 5, 6, 7, 8]
    );
    assert_eq!(
        Handshake::deserialize_handshake(&bytes),
        Some(Handshake { protocol_id: 0x0102_0304_0506_0708 })
    );
    assert!(Packet::deserialize(&bytes).is_none());
}

#[test]
fn handshake_of_another_shape_is_refused() {
    let mut bytes = Handshake { protocol_id: 7 }.serialize();
    bytes.push(0);
    assert!(Handshake::deserialize_handshake(&bytes).is_none());
    bytes.pop();
    bytes.pop();
    assert!(Handshake::deserialize_handshake(&bytes).is_none());
    let mut wrong = Handshake { protocol_id: 7 }.serialize();
    wrong[7] = b'T';
    assert!(Handshake::deserialize_handshake(&wrong).is_none());
    assert!(Handshake::deserialize_handshake(&[]).is_none());
}

#[test]
fn packet_is_no_handshake() {
    let mut packet = Packet::new();
    packet.push(Blob::Heartbeat(Heartbeat::new(0)));
    packet.push(Blob::Disconnect);
    packet.push(Blob::Disconnect);
    let bytes = packet.serialize();
    assert_eq!(bytes.len(), 17);
    assert!(Handshake::deserialize_handshake(&bytes[0..16]).is_none());
}
