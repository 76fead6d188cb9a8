use nifty_net::typed::{frame, unframe, Framed};

#[test]
fn a_frame_names_its_kind() {
    let bytes = frame(0x0102, &[9, 8, 7]);
    assert_eq!(bytes, vec![1, 2, 9, 8, 7]);
    match unframe(&bytes, 0x0102) {
        Framed::Payload(payload) => assert_eq!(payload, &[9, 8, 7]),
        _ => panic!(),
    }
    assert!(matches!(unframe(&bytes, 0x0201), Framed::Other));
}

#[test]
fn an_empty_value_is_framed() {
    let bytes = frame(7, &[]);
    assert_eq!(bytes, vec![0, 7]);
    match unframe(&bytes, 7) {
        Framed::Payload(payload) => assert!(payload.is_empty()),
        _ => panic!(),
    }
}

#[test]
fn a_short_message_names_no_kind() {
    assert!(matches!(unframe(&[], 0), Framed::Malformed));
    assert!(matches!(unframe(&[0], 0), Framed::Malformed));
    assert!(matches!(unframe(&[0, 0], 0), Framed::Payload(_)));
}
