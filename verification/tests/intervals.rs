use nifty_net::intervals::DeliveredIntervals;

fn all_gaps(delivered: &DeliveredIntervals) -> Vec<std::ops::Range<usize>> {
    let mut gaps = delivered.gaps();
    let mut all = Vec::new();
    while let Some(gap) = gaps.next() {
        all.push(gap);
    }
    all
}

#[test]
fn delivered_intervals_finished() {
    let mut delivered = DeliveredIntervals::new(10);
    assert!(!delivered.finished());

    delivered.set_delivered(1..3);
    assert!(!delivered.finished());

    delivered.set_delivered(3..10);
    assert!(!delivered.finished());

    delivered.set_delivered(0..1);
    assert!(delivered.finished());
}

#[test]
fn deliverd_intervals_gaps() {
    let mut delivered = DeliveredIntervals::new(10);

    delivered.set_delivered(1..2);
    delivered.set_delivered(5..6);
    delivered.set_delivered(6..8);

    let mut gaps = delivered.gaps();

    assert_eq!(gaps.next(), Some(0..1));
    assert_eq!(gaps.next(), Some(2..5));
    assert_eq!(gaps.next(), Some(8..10));
    assert_eq!(gaps.next(), None);
}

#[test]
fn nothing_delivered_is_one_gap() {
    let delivered = DeliveredIntervals::new(10);
    assert_eq!(all_gaps(&delivered), vec![0..10]);
    assert_eq!(delivered.first_gap(), Some(0..10));
    assert_eq!(delivered.len(), 10);
}

#[test]
fn exhausted_cursor_stays_exhausted() {
    let delivered = DeliveredIntervals::new(3);
    let mut gaps = delivered.gaps();
    assert_eq!(gaps.next(), Some(0..3));
    assert_eq!(gaps.next(), None);
    assert_eq!(gaps.next(), None);
}

#[test]
fn empty_ranges_are_ignored() {
    let mut delivered = DeliveredIntervals::new(10);
    delivered.set_delivered(4..4);
    delivered.set_delivered(0..0);
    delivered.set_delivered(10..10);
    #[allow(clippy::reversed_empty_ranges)]
    delivered.set_delivered(7..2);
    assert_eq!(all_gaps(&delivered), vec![0..10]);
    assert!(!delivered.finished());
}

#[test]
fn touching_and_overlapping_ranges_merge() {
    let mut delivered = DeliveredIntervals::new(20);
    delivered.set_delivered(2..4);
    delivered.set_delivered(8..10);
    delivered.set_delivered(14..16);
    assert_eq!(all_gaps(&delivered), vec![0..2, 4..8, 10..14, 16..20]);
    // touches the first on the right and the second on the left
    delivered.set_delivered(4..8);
    assert_eq!(all_gaps(&delivered), vec![0..2, 10..14, 16..20]);
    // overlaps two ranges and the hole between them
    delivered.set_delivered(9..15);
    assert_eq!(all_gaps(&delivered), vec![0..2, 16..20]);
    // the same start as a range that is there
    delivered.set_delivered(2..3);
    assert_eq!(all_gaps(&delivered), vec![0..2, 16..20]);
    // covers everything
    delivered.set_delivered(0..20);
    assert_eq!(all_gaps(&delivered), Vec::<std::ops::Range<usize>>::new());
    assert!(delivered.finished());
    assert_eq!(delivered.first_gap(), None);
}

#[test]
fn a_range_is_clipped_to_the_message() {
    let mut delivered = DeliveredIntervals::new(10);
    delivered.set_delivered(8..15);
    assert_eq!(all_gaps(&delivered), vec![0..8]);
    delivered.set_delivered(12..20);
    assert_eq!(all_gaps(&delivered), vec![0..8]);
    delivered.set_delivered(0..usize::MAX);
    assert!(delivered.finished());
}

#[test]
fn an_empty_message_never_finishes() {
    let mut delivered = DeliveredIntervals::new(0);
    assert!(!delivered.finished());
    delivered.set_delivered(0..0);
    delivered.set_delivered(0..5);
    assert!(!delivered.finished());
    assert_eq!(all_gaps(&delivered), Vec::<std::ops::Range<usize>>::new());
}

#[test]
fn inserts_in_any_order_give_the_same_gaps() {
    let pieces = [3..5, 0..1, 9..10, 5..6, 1..2];
    let mut forward = DeliveredIntervals::new(10);
    for piece in pieces.iter() {
        forward.set_delivered(piece.clone());
    }
    let mut backward = DeliveredIntervals::new(10);
    for piece in pieces.iter().rev() {
        backward.set_delivered(piece.clone());
    }
    assert_eq!(all_gaps(&forward), vec![2..3, 6..9]);
    assert_eq!(all_gaps(&backward), vec![2..3, 6..9]);
}

#[test]
fn a_copy_is_independent() {
    let mut delivered = DeliveredIntervals::new(10);
    delivered.set_delivered(0..4);
    let mut copy = delivered.duplicate();
    copy.set_delivered(4..10);
    assert!(copy.finished());
    assert!(!delivered.finished());
    assert_eq!(all_gaps(&delivered), vec![4..10]);
}
