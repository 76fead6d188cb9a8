//! What holds of the fragments of a wave and of their way to the receiver.

use crate::connection::{
    complete_messages, incomplete_messages, lemma_first_match, payload_of, receives_with,
    reliable_messages, remembered_at, undelivered, ConnectionView,
};
use crate::intervals::{
    canonical, covered, gaps_from, inserted, lemma_covered_within, lemma_finished, lemma_gaps_from,
    lemma_inserted_union,
};
use crate::laws::{
    control_blobs, feed, law_tick_order, lemma_flush_keeps_stream, lemma_pack_from, stream,
    tick_fragments,
};
use crate::message::{
    carve_end, spec_create_blob, spec_is_due, ReceiveMessageView, SendMessageView,
};
use crate::packer::{
    after_wave, carve, lemma_carve_progress, pack_from, wave_remaining, GrouperView,
};
use crate::packet::{BlobView, FragmentView};
use crate::{Config, Delays};
use vstd::prelude::*;

verus! {

/// Whether `fragment` is a piece of the message: it carries the message's
/// identifier, reliability and size, and its data are the payload's bytes at
/// its place.
pub open spec fn piece_of(message: SendMessageView, fragment: FragmentView) -> bool {
    &&& fragment.send_ack == message.reliable.is_some()
    &&& fragment.fragmentation_id == message.fragmentation_id
    &&& fragment.total_size == message.data.len()
    &&& fragment.start + fragment.data.len() <= message.data.len()
    &&& fragment.data == message.data.subrange(
        fragment.start as int,
        fragment.start + fragment.data.len(),
    )
}

/// The byte ranges of the fragments.
pub open spec fn ranges_of(fragments: Seq<FragmentView>) -> Seq<(int, int)> {
    Seq::new(
        fragments.len(),
        |k: int| (fragments[k].start as int, fragments[k].start + fragments[k].data.len()),
    )
}

/// The blobs of the fragments.
pub open spec fn fragment_blobs(fragments: Seq<FragmentView>) -> Seq<BlobView> {
    Seq::new(fragments.len(), |k: int| BlobView::Fragment(fragments[k]))
}

/// Whether no two of the fragments share a byte.
pub open spec fn disjoint(fragments: Seq<FragmentView>) -> bool {
    forall|j: int, k: int|
        0 <= j < k < fragments.len() ==> (#[trigger] fragments[j]).start + fragments[j].data.len()
            <= (#[trigger] fragments[k]).start || fragments[k].start + fragments[k].data.len()
            <= fragments[j].start
}

/// The first fragment's range and the ranges of the others cover what the
/// ranges of all cover.
proof fn lemma_ranges_split(fragments: Seq<FragmentView>, i: int)
    requires
        fragments.len() > 0,
    ensures
        covered(ranges_of(fragments), i) <==> fragments[0].start <= i < fragments[0].start
            + fragments[0].data.len() || covered(
            ranges_of(fragments.subrange(1, fragments.len() as int)),
            i,
        ),
{
    let all = ranges_of(fragments);
    let rest = fragments.subrange(1, fragments.len() as int);
    let others = ranges_of(rest);
    if covered(all, i) {
        let k = choose|k: int| 0 <= k < all.len() && (#[trigger] all[k]).0 <= i < all[k].1;
        if k > 0 {
            assert(others[k - 1] == all[k]);
        }
    }
    if covered(others, i) {
        let k = choose|k: int| 0 <= k < others.len() && (#[trigger] others[k]).0 <= i < others[k].1;
        assert(all[k + 1] == others[k]);
    }
    if fragments[0].start <= i < fragments[0].start + fragments[0].data.len() {
        assert(all[0].0 <= i < all[0].1);
    }
}

/// An incoming message that agrees with the payload where it has bytes
/// accepts pieces of the message in any order and however often: it then has
/// the bytes that it had and the bytes of the pieces, and still agrees with
/// the payload.
pub proof fn lemma_feed_pieces(
    message: SendMessageView,
    incoming: ReceiveMessageView,
    time: u128,
    fragments: Seq<FragmentView>,
)
    requires
        message.wf(),
        incoming.data.len() == message.data.len(),
        canonical(incoming.delivered, message.data.len() as int),
        forall|i: int| covered(incoming.delivered, i) ==> incoming.data[i] == message.data[i],
        forall|k: int| 0 <= k < fragments.len() ==> piece_of(message, #[trigger] fragments[k]),
    ensures
        feed(incoming, time, fragments).is_some(),
        feed(incoming, time, fragments).unwrap().data.len() == message.data.len(),
        feed(incoming, time, fragments).unwrap().reliable == incoming.reliable,
        feed(incoming, time, fragments).unwrap().fragmentation_id == incoming.fragmentation_id,
        canonical(feed(incoming, time, fragments).unwrap().delivered, message.data.len() as int),
        forall|i: int| #[trigger]
            covered(feed(incoming, time, fragments).unwrap().delivered, i) <==> covered(
                incoming.delivered,
                i,
            ) || covered(ranges_of(fragments), i),
        forall|i: int|
            covered(feed(incoming, time, fragments).unwrap().delivered, i) ==> feed(
                incoming,
                time,
                fragments,
            ).unwrap().data[i] == message.data[i],
    decreases fragments.len(),
{
    let size = message.data.len() as int;
    if fragments.len() == 0 {
        assert forall|i: int| !covered(ranges_of(fragments), i) by {}
    } else {
        let first = fragments[0];
        let rest = fragments.subrange(1, fragments.len() as int);
        assert(piece_of(message, first));
        let lo = first.start as int;
        let hi = first.start + first.data.len();
        let next = incoming.add(time, first);
        lemma_inserted_union(incoming.delivered, size, lo, hi);
        assert forall|i: int| covered(next.delivered, i) implies next.data[i] == message.data[i] by {
            lemma_covered_within(next.delivered, size, i);
            if lo <= i < hi {
                assert(first.data[i - lo] == message.data[i]);
            }
        }
        assert forall|k: int| 0 <= k < rest.len() implies piece_of(message, #[trigger] rest[k]) by {
            assert(rest[k] == fragments[k + 1]);
        }
        lemma_feed_pieces(message, next, time, rest);
        let end = feed(incoming, time, fragments).unwrap();
        assert forall|i: int| #[trigger]
            covered(end.delivered, i) <==> covered(incoming.delivered, i) || covered(
                ranges_of(fragments),
                i,
            ) by {
            lemma_ranges_split(fragments, i);
            if covered(ranges_of(rest), i) {
                assert(covered(end.delivered, i));
                lemma_covered_within(end.delivered, size, i);
            }
        }
    }
}

/// Pieces of a message that together hold every byte of it, handed to a
/// receiver in any order and however often, make the message complete, with
/// the payload.
pub proof fn law_reassembly(message: SendMessageView, fragments: Seq<FragmentView>, time: u128)
    requires
        message.wf(),
        message.data.len() > 0,
        fragments.len() > 0,
        forall|k: int| 0 <= k < fragments.len() ==> piece_of(message, #[trigger] fragments[k]),
        forall|i: int| 0 <= i < message.data.len() ==> covered(ranges_of(fragments), i),
    ensures
        ({
            let received = feed(ReceiveMessageView::blank(fragments[0]), time, fragments);
            &&& received.is_some()
            &&& received.unwrap().complete()
            &&& received.unwrap().data == message.data
            &&& received.unwrap().reliable == message.reliable.is_some()
            &&& received.unwrap().fragmentation_id == message.fragmentation_id
        }),
{
    let size = message.data.len() as int;
    let blank = ReceiveMessageView::blank(fragments[0]);
    assert(piece_of(message, fragments[0]));
    assert forall|i: int| !covered(blank.delivered, i) by {}
    lemma_feed_pieces(message, blank, time, fragments);
    let end = feed(blank, time, fragments).unwrap();
    assert forall|i: int| 0 <= i < size implies #[trigger] covered(end.delivered, i) by {
        assert(covered(ranges_of(fragments), i));
    }
    lemma_finished(end.delivered, size);
    assert(end.data =~= message.data);
}

/// The fragments of a wave: they are what the wave adds to the packer, in
/// order; each is a piece of the message with at least a byte; no two share
/// a byte; they hold nothing that the wave held before; and the wave holds
/// in the end what it held before and what they hold. Where the wave goes
/// through, that is every byte of the message.
pub proof fn lemma_carve_pieces(g: GrouperView, message: SendMessageView, wave: Seq<(int, int)>) -> (pieces:
    Seq<FragmentView>)
    requires
        message.wf(),
        canonical(wave, message.data.len() as int),
    ensures
        stream(carve(g, message, wave).0) == stream(g) + fragment_blobs(pieces),
        forall|k: int|
            0 <= k < pieces.len() ==> piece_of(message, #[trigger] pieces[k]) && pieces[k].data.len()
                > 0,
        disjoint(pieces),
        forall|i: int| #[trigger]
            covered(ranges_of(pieces), i) ==> 0 <= i < message.data.len() && !covered(wave, i),
        canonical(carve(g, message, wave).1, message.data.len() as int),
        forall|i: int| #[trigger]
            covered(carve(g, message, wave).1, i) <==> covered(wave, i) || covered(
                ranges_of(pieces),
                i,
            ),
        carve(g, message, wave).2 ==> forall|i: int|
            0 <= i < message.data.len() ==> #[trigger] covered(carve(g, message, wave).1, i),
    decreases wave_remaining(wave, message.data.len() as int), g.current.len(),
{
    let size = message.data.len() as int;
    let available = g.fragment_room() as u16;
    let step = spec_create_blob(message, wave, available);
    let none = Seq::<FragmentView>::empty();
    match step.0 {
        None => {
            lemma_gaps_from(wave, size, 0);
            assert(stream(g) + fragment_blobs(none) =~= stream(g));
            assert forall|i: int| !covered(ranges_of(none), i) by {}
            assert forall|i: int| 0 <= i < size implies #[trigger] covered(wave, i) by {
                assert(!covered(gaps_from(wave, size, 0), i));
            }
            none
        },
        Some(None) => {
            if g.current.len() == 0 {
                assert(stream(g) + fragment_blobs(none) =~= stream(g));
                assert forall|i: int| !covered(ranges_of(none), i) by {}
                none
            } else {
                lemma_flush_keeps_stream(g);
                lemma_carve_pieces(g.flush(), message, wave)
            }
        },
        Some(Some(blob)) => {
            lemma_carve_progress(wave, size, available);
            lemma_gaps_from(wave, size, 0);
            let gaps = gaps_from(wave, size, 0);
            let lo = gaps[0].0;
            let end = carve_end(gaps[0], available as int);
            let first = message.fragment(lo, end);
            let next = inserted(wave, size, lo, end);
            lemma_inserted_union(wave, size, lo, end);
            let rest = lemma_carve_pieces(g.push(blob), message, next);
            let pieces = seq![first] + rest;
            assert(pieces[0] == first);
            assert(pieces.subrange(1, pieces.len() as int) =~= rest);
            assert(stream(g.push(blob)) =~= stream(g).push(blob));
            assert(stream(g).push(blob) + fragment_blobs(rest) =~= stream(g) + fragment_blobs(
                pieces,
            ));
            assert(piece_of(message, first));
            assert forall|k: int| 0 <= k < pieces.len() implies piece_of(
                message,
                #[trigger] pieces[k],
            ) && pieces[k].data.len() > 0 by {
                if k > 0 {
                    assert(pieces[k] == rest[k - 1]);
                }
            }
            // the first fragment lies in the first hole of the wave
            assert forall|i: int| lo <= i < end implies !covered(wave, i) by {
                assert(gaps[0].0 <= i < gaps[0].1);
                assert(covered(gaps, i));
            }
            assert forall|i: int| #[trigger]
                covered(ranges_of(pieces), i) implies 0 <= i < size && !covered(wave, i) by {
                lemma_ranges_split(pieces, i);
            }
            assert forall|i: int| #[trigger]
                covered(carve(g, message, wave).1, i) <==> covered(wave, i) || covered(
                    ranges_of(pieces),
                    i,
                ) by {
                lemma_ranges_split(pieces, i);
            }
            assert forall|j: int, k: int| 0 <= j < k < pieces.len() implies (
            #[trigger] pieces[j]).start + pieces[j].data.len() <= (#[trigger] pieces[k]).start
                || pieces[k].start + pieces[k].data.len() <= pieces[j].start by {
                assert(pieces[k] == rest[k - 1]);
                if j > 0 {
                    assert(pieces[j] == rest[j - 1]);
                } else {
                    // a byte of both would be held by the wave and by a later fragment
                    let a = rest[k - 1].start as int;
                    let b = rest[k - 1].start + rest[k - 1].data.len();
                    if a < end && lo < b {
                        let i = if a < lo {
                            lo
                        } else {
                            a
                        };
                        assert(ranges_of(rest)[k - 1].0 <= i < ranges_of(rest)[k - 1].1);
                        assert(covered(ranges_of(rest), i));
                        assert(covered(next, i));
                    }
                }
            }
            pieces
        },
    }
}

/// Whether a blob is a fragment with the identifier `id`.
pub open spec fn fragment_with(blob: BlobView, id: u16) -> bool {
    match blob {
        BlobView::Fragment(fragment) => fragment.fragmentation_id == id,
        _ => false,
    }
}

/// Whether a blob is a fragment of one of the messages from the `i`th on
/// that are due.
pub open spec fn of_due_message(
    blob: BlobView,
    messages: Seq<SendMessageView>,
    time: u128,
    resend_delay: Option<u128>,
    i: int,
) -> bool {
    exists|k: int|
        i <= k < messages.len() && spec_is_due((#[trigger] messages[k]).reliable, time, resend_delay)
            && fragment_with(blob, messages[k].fragmentation_id)
}

/// The waves of the messages from the `i`th on add only fragments of
/// messages that are due, and leave a message that is not due as it is.
pub proof fn lemma_pack_from_due(
    g: GrouperView,
    messages: Seq<SendMessageView>,
    time: u128,
    resend_delay: Option<u128>,
    i: int,
)
    requires
        forall|k: int| 0 <= k < messages.len() ==> (#[trigger] messages[k]).wf(),
        0 <= i <= messages.len(),
    ensures
        stream(g).len() <= stream(pack_from(g, messages, time, resend_delay, i).0).len(),
        forall|n: int|
            stream(g).len() <= n < stream(pack_from(g, messages, time, resend_delay, i).0).len()
                ==> of_due_message(
                #[trigger] stream(pack_from(g, messages, time, resend_delay, i).0)[n],
                messages,
                time,
                resend_delay,
                i,
            ),
        pack_from(g, messages, time, resend_delay, i).1.len() == messages.len(),
        forall|k: int|
            0 <= k < messages.len() && !spec_is_due(messages[k].reliable, time, resend_delay)
                ==> #[trigger] pack_from(g, messages, time, resend_delay, i).1[k] == messages[k],
    decreases messages.len() - i,
{
    let result = pack_from(g, messages, time, resend_delay, i);
    let end = stream(result.0);
    if i < messages.len() {
        if !spec_is_due(messages[i].reliable, time, resend_delay) {
            lemma_pack_from_due(g, messages, time, resend_delay, i + 1);
            assert forall|n: int| stream(g).len() <= n < end.len() implies of_due_message(
                #[trigger] end[n],
                messages,
                time,
                resend_delay,
                i,
            ) by {
                assert(of_due_message(end[n], messages, time, resend_delay, i + 1));
                let k = choose|k: int|
                    i + 1 <= k < messages.len() && spec_is_due(
                        (#[trigger] messages[k]).reliable,
                        time,
                        resend_delay,
                    ) && fragment_with(end[n], messages[k].fragmentation_id);
                assert(i <= k && spec_is_due(messages[k].reliable, time, resend_delay));
            }
        } else {
            let m = messages[i];
            assert(m.wf());
            let pieces = lemma_carve_pieces(g, m, m.delivered);
            let (next, wave, ok) = carve(g, m, m.delivered);
            let mine = fragment_blobs(pieces);
            assert forall|n: int| stream(g).len() <= n < stream(next).len() implies fragment_with(
                #[trigger] stream(next)[n],
                m.fragmentation_id,
            ) by {
                assert(stream(next)[n] == mine[n - stream(g).len()]);
                assert(piece_of(m, pieces[n - stream(g).len()]));
            }
            if ok {
                let updated = messages.update(i, after_wave(m, wave, time));
                assert forall|k: int| 0 <= k < updated.len() implies (#[trigger] updated[k]).wf() by {
                    if k != i {
                        assert(messages[k].wf());
                    }
                }
                lemma_pack_from_due(next, updated, time, resend_delay, i + 1);
                assert forall|n: int| stream(g).len() <= n < end.len() implies of_due_message(
                    #[trigger] end[n],
                    messages,
                    time,
                    resend_delay,
                    i,
                ) by {
                    if n < stream(next).len() {
                        lemma_prefix_kept(next, updated, time, resend_delay, i + 1, n);
                        assert(end[n] == stream(next)[n]);
                        assert(spec_is_due(messages[i].reliable, time, resend_delay));
                    } else {
                        assert(of_due_message(end[n], updated, time, resend_delay, i + 1));
                        let k = choose|k: int|
                            i + 1 <= k < updated.len() && spec_is_due(
                                (#[trigger] updated[k]).reliable,
                                time,
                                resend_delay,
                            ) && fragment_with(end[n], updated[k].fragmentation_id);
                        assert(updated[k] == messages[k]);
                        assert(spec_is_due(messages[k].reliable, time, resend_delay));
                    }
                }
                assert forall|k: int|
                    0 <= k < messages.len() && !spec_is_due(
                        messages[k].reliable,
                        time,
                        resend_delay,
                    ) implies #[trigger] result.1[k] == messages[k] by {
                    assert(updated[k] == messages[k]);
                }
            } else {
                assert forall|n: int| stream(g).len() <= n < end.len() implies of_due_message(
                    #[trigger] end[n],
                    messages,
                    time,
                    resend_delay,
                    i,
                ) by {
                    assert(spec_is_due(messages[i].reliable, time, resend_delay));
                }
            }
        }
    }
}

/// The waves keep the blobs that the packer held, in their places.
proof fn lemma_prefix_kept(
    g: GrouperView,
    messages: Seq<SendMessageView>,
    time: u128,
    resend_delay: Option<u128>,
    i: int,
    n: int,
)
    requires
        forall|k: int| 0 <= k < messages.len() ==> (#[trigger] messages[k]).wf(),
        0 <= i <= messages.len(),
        0 <= n < stream(g).len(),
    ensures
        n < stream(pack_from(g, messages, time, resend_delay, i).0).len(),
        stream(pack_from(g, messages, time, resend_delay, i).0)[n] == stream(g)[n],
{
    lemma_pack_from(g, messages, time, resend_delay, i);
}

/// The waves from the `i`th message on leave the messages in front of it as
/// they are.
proof fn lemma_pack_from_before(
    g: GrouperView,
    messages: Seq<SendMessageView>,
    time: u128,
    resend_delay: Option<u128>,
    i: int,
    j: int,
)
    requires
        forall|k: int| 0 <= k < messages.len() ==> (#[trigger] messages[k]).wf(),
        0 <= j < i <= messages.len(),
    ensures
        pack_from(g, messages, time, resend_delay, i).1.len() == messages.len(),
        pack_from(g, messages, time, resend_delay, i).1[j] == messages[j],
    decreases messages.len() - i,
{
    if i < messages.len() {
        if !spec_is_due(messages[i].reliable, time, resend_delay) {
            lemma_pack_from_before(g, messages, time, resend_delay, i + 1, j);
        } else {
            assert(messages[i].wf());
            lemma_carve_pieces(g, messages[i], messages[i].delivered);
            let (next, wave, ok) = carve(g, messages[i], messages[i].delivered);
            if ok {
                let updated = messages.update(i, after_wave(messages[i], wave, time));
                assert forall|k: int| 0 <= k < updated.len() implies (#[trigger] updated[k]).wf() by {
                    if k != i {
                        assert(messages[k].wf());
                    }
                }
                lemma_pack_from_before(next, updated, time, resend_delay, i + 1, j);
            }
        }
    }
}

/// What the waves that go through do with the message at `k`, which is due.
/// Its fragments stand in a row among the blobs, from `at` on: pieces of the
/// message with at least a byte each, no two of which share a byte, that hold
/// exactly the undelivered bytes. The message is stamped with the time where
/// it is reliable, and counts as delivered where it is not.
pub proof fn lemma_pack_from_wave(
    g: GrouperView,
    messages: Seq<SendMessageView>,
    time: u128,
    resend_delay: Option<u128>,
    i: int,
    k: int,
) -> (r: (int, Seq<FragmentView>))
    requires
        forall|j: int| 0 <= j < messages.len() ==> (#[trigger] messages[j]).wf(),
        0 <= i <= k < messages.len(),
        spec_is_due(messages[k].reliable, time, resend_delay),
        pack_from(g, messages, time, resend_delay, i).2,
    ensures
        stream(g).len() <= r.0,
        r.0 + r.1.len() <= stream(pack_from(g, messages, time, resend_delay, i).0).len(),
        stream(pack_from(g, messages, time, resend_delay, i).0).subrange(r.0, r.0 + r.1.len())
            == fragment_blobs(r.1),
        forall|j: int|
            0 <= j < r.1.len() ==> piece_of(messages[k], #[trigger] r.1[j]) && r.1[j].data.len() > 0,
        disjoint(r.1),
        forall|n: int| #[trigger]
            covered(ranges_of(r.1), n) <==> 0 <= n < messages[k].data.len() && !covered(
                messages[k].delivered,
                n,
            ),
        pack_from(g, messages, time, resend_delay, i).1.len() == messages.len(),
        messages[k].reliable.is_some() ==> pack_from(g, messages, time, resend_delay, i).1[k] == (
        SendMessageView { reliable: Some(Some(time)), ..messages[k] }),
        messages[k].reliable.is_none() ==> pack_from(
            g,
            messages,
            time,
            resend_delay,
            i,
        ).1[k].reliable.is_none() && pack_from(g, messages, time, resend_delay, i).1[k].data
            == messages[k].data && forall|n: int|
            0 <= n < messages[k].data.len() ==> #[trigger] covered(
                pack_from(g, messages, time, resend_delay, i).1[k].delivered,
                n,
            ),
    decreases messages.len() - i,
{
    let result = pack_from(g, messages, time, resend_delay, i);
    if i < k && !spec_is_due(messages[i].reliable, time, resend_delay) {
        lemma_pack_from_wave(g, messages, time, resend_delay, i + 1, k)
    } else {
        let m = messages[i];
        assert(m.wf());
        let pieces = lemma_carve_pieces(g, m, m.delivered);
        let (next, wave, ok) = carve(g, m, m.delivered);
        let updated = messages.update(i, after_wave(m, wave, time));
        assert forall|j: int| 0 <= j < updated.len() implies (#[trigger] updated[j]).wf() by {
            if j != i {
                assert(messages[j].wf());
            }
        }
        lemma_pack_from(next, updated, time, resend_delay, i + 1);
        if i < k {
            let r = lemma_pack_from_wave(next, updated, time, resend_delay, i + 1, k);
            assert(updated[k] == messages[k]);
            r
        } else {
            let end = stream(result.0);
            let at = stream(g).len() as int;
            assert(end.subrange(at, at + pieces.len()) =~= fragment_blobs(pieces)) by {
                assert forall|j: int| 0 <= j < pieces.len() implies end[at + j] == fragment_blobs(
                    pieces,
                )[j] by {
                    assert(stream(next)[at + j] == fragment_blobs(pieces)[j]);
                    assert(end[at + j] == stream(next)[at + j]);
                }
            }
            lemma_pack_from_before(next, updated, time, resend_delay, i + 1, k);
            assert forall|n: int| #[trigger]
                covered(ranges_of(pieces), n) <==> 0 <= n < m.data.len() && !covered(
                    m.delivered,
                    n,
                ) by {
                if 0 <= n < m.data.len() {
                    assert(covered(wave, n));
                }
            }
            (at, pieces)
        }
    }
}

/// A message that is not due at a tick sends nothing and stays as it is: no
/// fragment with its identifier is among the blobs of the tick, and where a
/// byte of it is undelivered it stays queued, with the time of its last
/// transmission.
pub proof fn law_not_due_is_silent(
    c: ConnectionView,
    time: u128,
    config: Config,
    delays: Option<Delays>,
    k: int,
)
    requires
        c.wf(),
        0 <= k < c.send_messages.len(),
        !spec_is_due(
            c.send_messages[k].reliable,
            time,
            match delays {
                Some(d) => Some(d.resend),
                None => None,
            },
        ),
        c.update_established(time, config, delays).2,
    ensures
        forall|n: int|
            0 <= n < c.update_established(time, config, delays).1.flatten().len()
                ==> !fragment_with(
                #[trigger] c.update_established(time, config, delays).1.flatten()[n],
                c.send_messages[k].fragmentation_id,
            ),
        !c.send_messages[k].finished() ==> c.update_established(
            time,
            config,
            delays,
        ).0.send_messages.contains(c.send_messages[k]),
{
    let resend_delay = match delays {
        Some(d) => Some(d.resend),
        None => None,
    };
    let g0 = GrouperView::new(config.mtu, c.sent_packets, c.sent_bytes);
    let m = c.send_messages[k];
    let blobs = c.update_established(time, config, delays).1.flatten();
    let fragments = tick_fragments(c, time, config, delays);
    let control = control_blobs(c, time, config);
    law_tick_order(c, time, config, delays);
    lemma_pack_from_due(g0, c.send_messages, time, resend_delay, 0);
    assert forall|n: int| 0 <= n < blobs.len() implies !fragment_with(
        #[trigger] blobs[n],
        m.fragmentation_id,
    ) by {
        if n < fragments.len() {
            assert(blobs[n] == fragments[n]);
            assert(of_due_message(fragments[n], c.send_messages, time, resend_delay, 0));
            let j = choose|j: int|
                0 <= j < c.send_messages.len() && spec_is_due(
                    (#[trigger] c.send_messages[j]).reliable,
                    time,
                    resend_delay,
                ) && fragment_with(fragments[n], c.send_messages[j].fragmentation_id);
            if j < k {
                assert(c.send_messages[j].fragmentation_id != c.send_messages[k].fragmentation_id);
            } else if k < j {
                assert(c.send_messages[k].fragmentation_id != c.send_messages[j].fragmentation_id);
            }
        } else {
            assert(blobs[n] == control[n - fragments.len()]);
        }
    }
    if !m.finished() {
        let packed = pack_from(g0, c.send_messages, time, resend_delay, 0).1;
        assert(packed[k] == m);
        packed.lemma_filter_contains(undelivered(), k);
    }
}

/// A message that is due at a tick that does not fail sends exactly its
/// undelivered bytes: its fragments stand in a row among the blobs of the
/// tick, from `at` on, as pieces of the message with at least a byte each,
/// no two of which share a byte. A reliable message is stamped with the
/// time of the tick, and stays queued where a byte of it is undelivered.
pub proof fn law_due_sends_undelivered(
    c: ConnectionView,
    time: u128,
    config: Config,
    delays: Option<Delays>,
    k: int,
) -> (r: (int, Seq<FragmentView>))
    requires
        c.wf(),
        0 <= k < c.send_messages.len(),
        spec_is_due(
            c.send_messages[k].reliable,
            time,
            match delays {
                Some(d) => Some(d.resend),
                None => None,
            },
        ),
        c.update_established(time, config, delays).2,
    ensures
        0 <= r.0,
        r.0 + r.1.len() <= c.update_established(time, config, delays).1.flatten().len(),
        c.update_established(time, config, delays).1.flatten().subrange(r.0, r.0 + r.1.len())
            == fragment_blobs(r.1),
        forall|j: int|
            0 <= j < r.1.len() ==> piece_of(c.send_messages[k], #[trigger] r.1[j])
                && r.1[j].data.len() > 0,
        disjoint(r.1),
        forall|n: int| #[trigger]
            covered(ranges_of(r.1), n) <==> 0 <= n < c.send_messages[k].data.len() && !covered(
                c.send_messages[k].delivered,
                n,
            ),
        c.send_messages[k].reliable.is_some() && !c.send_messages[k].finished()
            ==> c.update_established(time, config, delays).0.send_messages.contains(
            SendMessageView { reliable: Some(Some(time)), ..c.send_messages[k] },
        ),
{
    let resend_delay = match delays {
        Some(d) => Some(d.resend),
        None => None,
    };
    let g0 = GrouperView::new(config.mtu, c.sent_packets, c.sent_bytes);
    let m = c.send_messages[k];
    let blobs = c.update_established(time, config, delays).1.flatten();
    let fragments = tick_fragments(c, time, config, delays);
    law_tick_order(c, time, config, delays);
    let r = lemma_pack_from_wave(g0, c.send_messages, time, resend_delay, 0, k);
    assert(blobs.subrange(r.0, r.0 + r.1.len()) =~= fragments.subrange(r.0, r.0 + r.1.len()));
    if m.reliable.is_some() && !m.finished() {
        let packed = pack_from(g0, c.send_messages, time, resend_delay, 0).1;
        let stamped = SendMessageView { reliable: Some(Some(time)), ..m };
        assert(packed[k] == stamped);
        assert(!stamped.finished());
        packed.lemma_filter_contains(undelivered(), k);
    }
    r
}

/// What the fragments do to a connection, one after the other, up to the
/// first that is refused.
pub open spec fn receive_fragments(
    c: ConnectionView,
    time: u128,
    fragments: Seq<FragmentView>,
) -> (ConnectionView, bool)
    decreases fragments.len(),
{
    if fragments.len() == 0 {
        (c, true)
    } else {
        let (next, ok) = c.receive_fragment(time, fragments[0]);
        if ok {
            receive_fragments(next, time, fragments.subrange(1, fragments.len() as int))
        } else {
            (next, false)
        }
    }
}

/// A connection whose last incoming message belongs to the payload of
/// `message`, and agrees with it where it has bytes, takes pieces of the
/// message into that incoming message and nowhere else.
proof fn lemma_receive_pieces(
    c: ConnectionView,
    base: Seq<ReceiveMessageView>,
    incoming: ReceiveMessageView,
    message: SendMessageView,
    time: u128,
    fragments: Seq<FragmentView>,
)
    requires
        message.wf(),
        c.receive_messages == base.push(incoming),
        forall|j: int|
            0 <= j < base.len() ==> (#[trigger] base[j]).fragmentation_id
                != message.fragmentation_id,
        incoming.fragmentation_id == message.fragmentation_id,
        incoming.data.len() == message.data.len(),
        canonical(incoming.delivered, message.data.len() as int),
        forall|i: int| covered(incoming.delivered, i) ==> incoming.data[i] == message.data[i],
        forall|k: int| 0 <= k < fragments.len() ==> piece_of(message, #[trigger] fragments[k]),
        message.reliable.is_some() ==> !c.is_blacklisted(message.fragmentation_id),
    ensures
        receive_fragments(c, time, fragments).1,
        feed(incoming, time, fragments).is_some(),
        receive_fragments(c, time, fragments).0.receive_messages == base.push(
            feed(incoming, time, fragments).unwrap(),
        ),
        receive_fragments(c, time, fragments).0.reliable_blacklist == c.reliable_blacklist,
    decreases fragments.len(),
{
    let size = message.data.len() as int;
    let id = message.fragmentation_id;
    if fragments.len() > 0 {
        let first = fragments[0];
        let rest = fragments.subrange(1, fragments.len() as int);
        assert(piece_of(message, first));
        assert forall|j: int| 0 <= j < base.len() implies !receives_with(id)(
            #[trigger] c.receive_messages[j],
        ) by {
            assert(c.receive_messages[j] == base[j]);
        }
        assert(c.receive_messages[base.len() as int] == incoming);
        lemma_first_match(c.receive_messages, receives_with(id), base.len() as int);
        assert(incoming.accepts(first));
        let (next, ok) = c.receive_fragment(time, first);
        let grown = incoming.add(time, first);
        assert(ok);
        assert(next.receive_messages =~= base.push(grown));
        let lo = first.start as int;
        let hi = first.start + first.data.len();
        lemma_inserted_union(incoming.delivered, size, lo, hi);
        assert forall|i: int| covered(grown.delivered, i) implies grown.data[i] == message.data[i] by {
            lemma_covered_within(grown.delivered, size, i);
            if lo <= i < hi {
                assert(first.data[i - lo] == message.data[i]);
            }
        }
        assert forall|k: int| 0 <= k < rest.len() implies piece_of(message, #[trigger] rest[k]) by {
            assert(rest[k] == fragments[k + 1]);
        }
        lemma_feed_pieces(message, grown, time, rest);
        lemma_receive_pieces(next, base, grown, message, time, rest);
    }
}

/// Pieces of a message that together hold every byte of it, arriving in any
/// order and however often at a connection that neither has nor remembers
/// the message, are delivered as one message: the next flush hands over the
/// payload once, behind what it would have handed over without them, and
/// keeps the incoming messages that it would have kept without them; where
/// the message is reliable, its identifier is remembered from then on.
pub proof fn law_single_delivery(
    c: ConnectionView,
    message: SendMessageView,
    time: u128,
    fragments: Seq<FragmentView>,
    later: u128,
)
    requires
        message.wf(),
        message.data.len() > 0,
        fragments.len() > 0,
        forall|k: int| 0 <= k < fragments.len() ==> piece_of(message, #[trigger] fragments[k]),
        forall|i: int| 0 <= i < message.data.len() ==> covered(ranges_of(fragments), i),
        forall|j: int|
            0 <= j < c.receive_messages.len() ==> (#[trigger] c.receive_messages[j]).fragmentation_id
                != message.fragmentation_id,
        message.reliable.is_some() ==> !c.is_blacklisted(message.fragmentation_id),
    ensures
        receive_fragments(c, time, fragments).1,
        receive_fragments(c, time, fragments).0.flush(later).1 == c.flush(later).1.push(
            message.data,
        ),
        receive_fragments(c, time, fragments).0.flush(later).0.receive_messages == c.flush(
            later,
        ).0.receive_messages,
        message.reliable.is_some() ==> receive_fragments(c, time, fragments).0.flush(
            later,
        ).0.is_blacklisted(message.fragmentation_id),
{
    let id = message.fragmentation_id;
    let first = fragments[0];
    let rest = fragments.subrange(1, fragments.len() as int);
    let base = c.receive_messages;
    assert(piece_of(message, first));
    // the first fragment starts the message
    assert forall|j: int| 0 <= j < base.len() implies !receives_with(id)(#[trigger] base[j]) by {}
    lemma_first_match(base, receives_with(id), base.len() as int);
    let blank = ReceiveMessageView::blank(first);
    let started = blank.add(time, first);
    let (next, ok) = c.receive_fragment(time, first);
    assert(ok);
    assert(next.receive_messages == base.push(started));
    assert forall|i: int| !covered(blank.delivered, i) by {}
    lemma_feed_pieces(message, blank, time, seq![first]);
    assert(feed(blank, time, seq![first]) == Some(started)) by {
        reveal_with_fuel(feed, 3);
        assert(seq![first].subrange(1, 1) =~= Seq::<FragmentView>::empty());
    }
    assert forall|k: int| 0 <= k < rest.len() implies piece_of(message, #[trigger] rest[k]) by {
        assert(rest[k] == fragments[k + 1]);
    }
    lemma_receive_pieces(next, base, started, message, time, rest);
    // the others complete it
    law_reassembly(message, fragments, time);
    let whole = feed(blank, time, fragments).unwrap();
    assert(feed(blank, time, fragments) == feed(started, time, rest));
    let end = receive_fragments(c, time, fragments).0;
    assert(end.receive_messages == base.push(whole));
    // the flush hands it over once
    base.lemma_filter_push(whole, complete_messages());
    base.lemma_filter_push(whole, incomplete_messages());
    let done = base.filter(complete_messages());
    assert(done.push(whole).map_values(payload_of()) =~= done.map_values(payload_of()).push(
        message.data,
    ));
    if message.reliable.is_some() {
        done.lemma_filter_push(whole, reliable_messages());
        let entries = done.push(whole).filter(reliable_messages()).map_values(
            remembered_at(later),
        );
        let last = entries.len() - 1;
        assert(entries[last] == (later, id));
        let list = end.flush(later).0.reliable_blacklist;
        assert(list[end.reliable_blacklist.len() + last] == entries[last]);
    }
}

} // verus!
