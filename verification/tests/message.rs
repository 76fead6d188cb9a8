use nifty_net::intervals::DeliveredIntervals;
use nifty_net::message::{ReceiveMessage, SendMessage};
use nifty_net::packet::{Blob, Fragment};

fn fragment_of(blob: Option<Option<Blob>>) -> Fragment {
    match blob {
        Some(Some(Blob::Fragment(fragment))) => fragment,
        _ => panic!("no fragment"),
    }
}

fn gaps_of(delivered: &DeliveredIntervals) -> Vec<std::ops::Range<usize>> {
    let mut gaps = delivered.gaps();
    let mut all = Vec::new();
    while let Some(gap) = gaps.next() {
        all.push(gap);
    }
    all
}

#[test]
fn a_wave_carves_the_payload_in_order() {
    let payload: Vec<u8> = (0..30).collect();
    let mut message = SendMessage::new(true, 7, payload.clone());
    let mut wave = message.get_deliverd_intervals();

    let first = fragment_of(message.create_blob(&mut wave, 18));
    assert!(first.send_ack);
    assert_eq!(first.fragmentation_id, 7);
    assert_eq!(first.total_size, 30);
    assert_eq!(first.start, 0);
    assert_eq!(first.data, payload[0..8].to_vec());

    let second = fragment_of(message.create_blob(&mut wave, 18));
    assert_eq!(second.start, 8);
    assert_eq!(second.data, payload[8..16].to_vec());

    let third = fragment_of(message.create_blob(&mut wave, 11));
    assert_eq!(third.start, 16);
    assert_eq!(third.data, payload[16..17].to_vec());

    let fourth = fragment_of(message.create_blob(&mut wave, 1000));
    assert_eq!(fourth.start, 17);
    assert_eq!(fourth.data, payload[17..30].to_vec());

    assert!(message.create_blob(&mut wave, 1000).is_none());
    assert!(wave.finished());
    // the wave does not touch what is delivered
    assert!(!message.delivered());
    assert_eq!(gaps_of(&message.get_deliverd_intervals()), vec![0..30]);
}

#[test]
fn no_room_behind_the_header() {
    let mut message = SendMessage::new(false, 1, vec![1, 2, 3]);
    let mut wave = message.get_deliverd_intervals();
    assert!(matches!(message.create_blob(&mut wave, 0), Some(None)));
    assert!(matches!(message.create_blob(&mut wave, 9), Some(None)));
    assert!(matches!(message.create_blob(&mut wave, 10), Some(None)));
    assert_eq!(gaps_of(&wave), vec![0..3]);
    let fragment = fragment_of(message.create_blob(&mut wave, 11));
    assert!(!fragment.send_ack);
    assert_eq!(fragment.data, vec![1]);
}

#[test]
fn a_wave_skips_what_is_delivered() {
    let payload: Vec<u8> = (100..120).collect();
    let mut message = SendMessage::new(true, 3, payload.clone());
    assert_eq!(message.set_delivered(5..12), Ok(()));
    let mut wave = message.get_deliverd_intervals();
    let first = fragment_of(message.create_blob(&mut wave, 100));
    assert_eq!(first.start, 0);
    assert_eq!(first.data, payload[0..5].to_vec());
    let second = fragment_of(message.create_blob(&mut wave, 100));
    assert_eq!(second.start, 12);
    assert_eq!(second.data, payload[12..20].to_vec());
    assert!(message.create_blob(&mut wave, 100).is_none());
}

#[test]
fn acknowledged_ranges_complete_a_message() {
    let mut message = SendMessage::new(true, 3, vec![0; 10]);
    assert_eq!(message.fragmentation_id(), 3);
    assert_eq!(message.len(), 10);
    assert!(!message.delivered());
    assert_eq!(message.set_delivered(0..4), Ok(()));
    assert_eq!(message.set_delivered(4..11), Err(()));
    assert!(!message.delivered());
    assert_eq!(gaps_of(&message.get_deliverd_intervals()), vec![4..10]);
    assert_eq!(message.set_delivered(4..10), Ok(()));
    assert!(message.delivered());
}

#[test]
fn reliable_messages_remember_when_they_were_sent() {
    let mut reliable = SendMessage::new(true, 0, vec![1]);
    assert_eq!(reliable.reliable().map(|last| *last), Some(None));
    assert!(reliable.is_due(0, None));
    *reliable.reliable().unwrap() = Some(1_000);
    assert_eq!(reliable.reliable().map(|last| *last), Some(Some(1_000)));
    // sent, and no round trip time yet: wait
    assert!(!reliable.is_due(u128::MAX, None));
    // sent, round trip time known: resend once the delay has passed
    assert!(!reliable.is_due(1_499, Some(500)));
    assert!(reliable.is_due(1_500, Some(500)));
    assert!(!reliable.is_due(u128::MAX, Some(u128::MAX)));

    let mut unreliable = SendMessage::new(false, 0, vec![1]);
    assert!(unreliable.reliable().is_none());
    assert!(unreliable.is_due(0, None));
}

#[test]
fn an_unreliable_wave_is_committed() {
    let mut message = SendMessage::new(false, 9, vec![1, 2, 3, 4]);
    let mut wave = message.get_deliverd_intervals();
    let _ = message.create_blob(&mut wave, 100);
    message.set_delivered_intervals(wave);
    assert!(message.delivered());
}

#[test]
fn fragments_reassemble_in_any_order() {
    let payload: Vec<u8> = (1..=10).collect();
    let piece = |start: usize, end: usize| Fragment {
        send_ack: true,
        fragmentation_id: 5,
        total_size: 10,
        start: start as u32,
        data: payload[start..end].to_vec(),
    };
    let mut message = ReceiveMessage::new(100, piece(6, 10)).unwrap();
    assert!(message.is_reliable());
    assert_eq!(message.fragmentation_id(), 5);
    assert_eq!(message.last_received_time(), 100);
    assert!(!message.complete());
    assert_eq!(message.add_fragment(200, piece(0, 3)), Ok(()));
    assert_eq!(message.last_received_time(), 200);
    assert!(!message.complete());
    // a duplicate is harmless
    assert_eq!(message.add_fragment(300, piece(0, 3)), Ok(()));
    assert_eq!(message.add_fragment(400, piece(2, 7)), Ok(()));
    assert!(message.complete());
    assert_eq!(message.data(), payload);
}

#[test]
fn missing_bytes_are_zero() {
    let fragment = Fragment { send_ack: false, fragmentation_id: 1, total_size: 6, start: 2, data: vec![7, 8] };
    let message = ReceiveMessage::new(0, fragment).unwrap();
    assert!(!message.is_reliable());
    assert!(!message.complete());
    assert_eq!(message.data(), vec![0, 0, 7, 8, 0, 0]);
}

#[test]
fn contradicting_fragments_are_refused() {
    let outside = Fragment { send_ack: true, fragmentation_id: 1, total_size: 4, start: 3, data: vec![1, 2] };
    assert!(ReceiveMessage::new(0, outside).is_err());
    let behind = Fragment { send_ack: true, fragmentation_id: 1, total_size: 4, start: 9, data: vec![] };
    assert!(ReceiveMessage::new(0, behind).is_err());

    let first = Fragment { send_ack: true, fragmentation_id: 1, total_size: 4, start: 0, data: vec![1, 2] };
    let mut message = ReceiveMessage::new(10, first).unwrap();
    let other_size = Fragment { send_ack: true, fragmentation_id: 1, total_size: 5, start: 2, data: vec![3, 4] };
    assert_eq!(message.add_fragment(20, other_size), Err(()));
    let too_long = Fragment { send_ack: true, fragmentation_id: 1, total_size: 4, start: 2, data: vec![3, 4, 5] };
    assert_eq!(message.add_fragment(20, too_long), Err(()));
    assert_eq!(message.last_received_time(), 10);
    assert!(!message.complete());
    let good = Fragment { send_ack: true, fragmentation_id: 1, total_size: 4, start: 2, data: vec![3, 4] };
    assert_eq!(message.add_fragment(30, good), Ok(()));
    assert_eq!(message.data(), vec![1, 2, 3, 4]);
}

#[test]
fn a_single_fragment_completes_a_message() {
    let fragment = Fragment { send_ack: false, fragmentation_id: 2, total_size: 3, start: 0, data: vec![4, 5, 6] };
    let message = ReceiveMessage::new(0, fragment).unwrap();
    assert!(message.complete());
    assert_eq!(message.data(), vec![4, 5, 6]);
}
