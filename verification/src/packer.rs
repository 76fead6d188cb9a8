//! The packing of blobs into packets of at most the configured size, and the
//! carving of a message's undelivered bytes into fragments that fill them.

use crate::intervals::{
    canonical, gaps_after_carving, gaps_from, lemma_carve_gaps, lemma_gaps_from, DeliveredIntervals,
};
use crate::message::{carve_end, spec_create_blob, spec_is_due, SendMessage, SendMessageView};
use crate::packet::{blobs_view, packet_wire, Blob, BlobView, Packet};
use vstd::prelude::*;

verus! {

/// `a + b`, or `u64::MAX` where that is less.
pub open spec fn saturating(a: u64, b: int) -> u64 {
    if a + b > u64::MAX {
        u64::MAX
    } else {
        (a + b) as u64
    }
}

/// The bytes of each packet of a list.
pub open spec fn wire_all(packets: Seq<Seq<BlobView>>) -> Seq<Seq<u8>> {
    Seq::new(packets.len(), |i: int| packet_wire(packets[i]))
}

/// The bytes of each datagram of a list.
pub open spec fn datagrams_view(datagrams: Seq<Vec<u8>>) -> Seq<Seq<u8>> {
    Seq::new(datagrams.len(), |i: int| datagrams[i]@)
}

/// How far the first hole of a wave lies from the end of the message, or
/// `0` where the wave has no hole.
pub open spec fn wave_remaining(wave: Seq<(int, int)>, size: int) -> int {
    let gaps = gaps_from(wave, size, 0);
    if gaps.len() == 0 {
        0
    } else {
        size - gaps[0].0
    }
}

/// A packer as a mathematical value: the packets that were sent off, the
/// packet that is being filled, and the counters of what was sent off.
pub struct GrouperView {
    /// The size at which a packet is sent off.
    pub mtu: u16,
    /// The packets that were sent off, oldest first.
    pub sent: Seq<Seq<BlobView>>,
    /// The blobs of the packet that is being filled.
    pub current: Seq<BlobView>,
    /// How many packets were sent off, by this packer and before.
    pub sent_packets: u64,
    /// How many bytes those packets held.
    pub sent_bytes: u64,
}

impl GrouperView {
    /// A packer with an empty packet.
    pub open spec fn new(mtu: u16, sent_packets: u64, sent_bytes: u64) -> GrouperView {
        GrouperView { mtu, sent: Seq::empty(), current: Seq::empty(), sent_packets, sent_bytes }
    }

    /// The size of the largest blob that still fits the packet: what is left
    /// of the MTU behind the packet and the next length prefix.
    pub open spec fn space_left(self) -> int {
        let used = packet_wire(self.current).len() + 2;
        if used >= self.mtu {
            0
        } else {
            self.mtu - used
        }
    }

    /// The room for a fragment: a fragment blob is its fragment behind the
    /// one byte of the type tag, so this is one byte less than the room for a
    /// blob.
    pub open spec fn fragment_room(self) -> int {
        if self.space_left() > 0 {
            self.space_left() - 1
        } else {
            0
        }
    }

    /// The packer with `blob` at the end of its packet.
    pub open spec fn push(self, blob: BlobView) -> GrouperView {
        GrouperView { current: self.current.push(blob), ..self }
    }

    /// The packer with its packet sent off and counted, and a new empty packet.
    pub open spec fn flush(self) -> GrouperView {
        GrouperView {
            sent: self.sent.push(self.current),
            current: Seq::empty(),
            sent_packets: saturating(self.sent_packets, 1),
            sent_bytes: saturating(self.sent_bytes, packet_wire(self.current).len() as int),
            ..self
        }
    }

    /// Makes room by sending the packet off. An empty packet cannot make
    /// room: the flag is `false`.
    pub open spec fn create_space(self) -> (GrouperView, bool) {
        if self.current.len() == 0 {
            (self, false)
        } else {
            (self.flush(), true)
        }
    }

    /// Makes sure that a blob of `needed` bytes fits, sending the packet off
    /// where it does not. The flag is `false` where it fits no empty packet.
    pub open spec fn ensure_space(self, needed: int) -> (GrouperView, bool) {
        if self.space_left() >= needed {
            (self, true)
        } else {
            let (next, ok) = self.create_space();
            (next, ok && next.space_left() >= needed)
        }
    }

    /// Makes sure that `blob` fits and adds it.
    pub open spec fn add(self, blob: BlobView) -> (GrouperView, bool) {
        let (next, ok) = self.ensure_space(blob.wire().len() as int);
        if ok {
            (next.push(blob), true)
        } else {
            (next, false)
        }
    }

    /// Adds the blobs from the `i`th on, up to the first that does not fit.
    pub open spec fn add_all(self, blobs: Seq<BlobView>, i: int) -> (GrouperView, bool)
        decreases blobs.len() - i,
    {
        if i < 0 || i >= blobs.len() {
            (self, true)
        } else {
            let (next, ok) = self.add(blobs[i]);
            if ok {
                next.add_all(blobs, i + 1)
            } else {
                (next, false)
            }
        }
    }

    /// The packer in the end: the last packet is sent off and counted where
    /// it holds a blob.
    pub open spec fn finish(self) -> GrouperView {
        if self.current.len() > 0 {
            self.flush()
        } else {
            self
        }
    }

    /// Every blob of the packet that is being filled can be written.
    pub open spec fn wf(self) -> bool {
        forall|i: int| 0 <= i < self.current.len() ==> (#[trigger] self.current[i]).writable()
    }
}

/// Carves one wave of fragments from `message` into the packer. `wave` holds
/// what is delivered and what the wave has carved so far. Each fragment
/// takes the head of the wave's first hole, as much as the packet has room
/// for behind the blob's type tag; a packet without room is sent off. Beside the packer stand the wave
/// in the end and a flag, which is `false` where an empty packet has no room
/// for a fragment.
pub open spec fn carve(g: GrouperView, message: SendMessageView, wave: Seq<(int, int)>) -> (
    GrouperView,
    Seq<(int, int)>,
    bool,
)
    decreases wave_remaining(wave, message.data.len() as int), g.current.len(),
    when canonical(wave, message.data.len() as int)
    via carve_decreases
{
    let step = spec_create_blob(message, wave, g.fragment_room() as u16);
    match step.0 {
        None => (g, wave, true),
        Some(None) => if g.current.len() == 0 {
            (g, wave, false)
        } else {
            carve(g.flush(), message, wave)
        },
        Some(Some(blob)) => carve(g.push(blob), message, step.1),
    }
}

#[via_fn]
proof fn carve_decreases(g: GrouperView, message: SendMessageView, wave: Seq<(int, int)>) {
    let size = message.data.len() as int;
    let gaps = gaps_from(wave, size, 0);
    let available = g.fragment_room() as u16;
    if gaps.len() > 0 && available > 10 {
        lemma_carve_progress(wave, size, available);
    }
}

/// A fragment takes at least one byte, so the next hole starts further on.
pub proof fn lemma_carve_progress(wave: Seq<(int, int)>, size: int, available: u16)
    requires
        canonical(wave, size),
        gaps_from(wave, size, 0).len() > 0,
        available > 10,
    ensures
        canonical(
            crate::intervals::inserted(
                wave,
                size,
                gaps_from(wave, size, 0)[0].0,
                carve_end(gaps_from(wave, size, 0)[0], available as int),
            ),
            size,
        ),
        wave_remaining(
            crate::intervals::inserted(
                wave,
                size,
                gaps_from(wave, size, 0)[0].0,
                carve_end(gaps_from(wave, size, 0)[0], available as int),
            ),
            size,
        ) < wave_remaining(wave, size),
        0 <= wave_remaining(
            crate::intervals::inserted(
                wave,
                size,
                gaps_from(wave, size, 0)[0].0,
                carve_end(gaps_from(wave, size, 0)[0], available as int),
            ),
            size,
        ),
        gaps_from(wave, size, 0)[0].0 < carve_end(gaps_from(wave, size, 0)[0], available as int)
            <= gaps_from(wave, size, 0)[0].1 <= size,
        0 <= gaps_from(wave, size, 0)[0].0,
{
    let gaps = gaps_from(wave, size, 0);
    lemma_gaps_from(wave, size, 0);
    assert(0 <= gaps[0].0 < gaps[0].1 <= size);
    let end = carve_end(gaps[0], available as int);
    lemma_carve_gaps(wave, size, end);
    let left = gaps_after_carving(gaps, end);
    if end < gaps[0].1 {
        assert(left[0] == (end, gaps[0].1));
    } else if left.len() > 0 {
        assert(left[0] == gaps[1]);
        assert(gaps[0].1 < gaps[1].0);
        assert(0 <= gaps[1].0 < gaps[1].1 <= size);
    }
}

/// The message after a wave that went through: a reliable message records
/// when it was sent; an unreliable message counts as delivered as far as the
/// wave went.
pub open spec fn after_wave(message: SendMessageView, wave: Seq<(int, int)>, time: u128) -> SendMessageView {
    if message.reliable.is_some() {
        SendMessageView { reliable: Some(Some(time)), ..message }
    } else {
        SendMessageView { delivered: wave, ..message }
    }
}

/// Carves a wave from each message from the `i`th on that is due at `time`,
/// up to the first that does not go through. Beside the packer stand the
/// messages in the end and a flag, which is `false` where a wave did not go
/// through.
pub open spec fn pack_from(
    g: GrouperView,
    messages: Seq<SendMessageView>,
    time: u128,
    resend_delay: Option<u128>,
    i: int,
) -> (GrouperView, Seq<SendMessageView>, bool)
    decreases messages.len() - i,
{
    if i < 0 || i >= messages.len() {
        (g, messages, true)
    } else if !spec_is_due(messages[i].reliable, time, resend_delay) {
        pack_from(g, messages, time, resend_delay, i + 1)
    } else {
        let (next, wave, ok) = carve(g, messages[i], messages[i].delivered);
        if ok {
            pack_from(
                next,
                messages.update(i, after_wave(messages[i], wave, time)),
                time,
                resend_delay,
                i + 1,
            )
        } else {
            (next, messages, false)
        }
    }
}

/// Packs blobs into packets and collects the packets' bytes.
pub struct PacketGrouper {
    mtu: u16,
    datagrams: Vec<Vec<u8>>,
    sent: Ghost<Seq<Seq<BlobView>>>,
    current_packet: Packet,
    sent_packets: u64,
    sent_bytes: u64,
}

impl View for PacketGrouper {
    type V = GrouperView;

    closed spec fn view(&self) -> GrouperView {
        GrouperView {
            mtu: self.mtu,
            sent: self.sent@,
            current: self.current_packet@,
            sent_packets: self.sent_packets,
            sent_bytes: self.sent_bytes,
        }
    }
}

impl PacketGrouper {
    /// The collected datagrams are the bytes of the packets sent off, and
    /// every blob of the packet that is being filled can be sent.
    pub closed spec fn wf(&self) -> bool {
        &&& self@.wf()
        &&& self.current_packet.wf()
        &&& self.datagrams@.len() == self.sent@.len()
        &&& forall|i: int|
            0 <= i < self.datagrams@.len() ==> (#[trigger] self.datagrams@[i])@ == packet_wire(
                self.sent@[i],
            )
    }

    /// A packer with an empty packet, which counts on from the given counters.
    pub fn new(mtu: u16, sent_packets: u64, sent_bytes: u64) -> (grouper: Self)
        ensures
            grouper.wf(),
            grouper@ == GrouperView::new(mtu, sent_packets, sent_bytes),
    {
        let grouper = PacketGrouper {
            mtu,
            datagrams: Vec::new(),
            sent: Ghost(Seq::empty()),
            current_packet: Packet::new(),
            sent_packets,
            sent_bytes,
        };
        grouper
    }

    /// How many packets were sent off, by this packer and before.
    pub fn sent_packets(&self) -> (n: u64)
        ensures
            n == self@.sent_packets,
    {
        self.sent_packets
    }

    /// How many bytes the packets held that were sent off.
    pub fn sent_bytes(&self) -> (n: u64)
        ensures
            n == self@.sent_bytes,
    {
        self.sent_bytes
    }

    /// The size of the largest blob that still fits the packet.
    pub fn space_left(&self) -> (n: u16)
        requires
            self.wf(),
        ensures
            n == self@.space_left(),
    {
        self.current_packet.space_left(self.mtu)
    }

    /// The room for a fragment in the packet: one byte less than the room
    /// for a blob, for the blob's type tag.
    pub fn fragment_room(&self) -> (n: u16)
        requires
            self.wf(),
        ensures
            n == self@.fragment_room(),
    {
        let space = self.space_left();
        if space > 0 {
            space - 1
        } else {
            0
        }
    }

    /// Adds a blob to the packet, whether it fits or not.
    pub fn push(&mut self, blob: Blob)
        requires
            old(self).wf(),
            blob@.sized(),
            blob@.writable(),
        ensures
            final(self).wf(),
            final(self)@ == old(self)@.push(blob@),
    {
        let ghost before = self@.current;
        self.current_packet.push(blob);
        assert forall|i: int| 0 <= i < self@.current.len() implies (
        #[trigger] self@.current[i]).writable() by {
            if i < before.len() {
                assert(before[i].writable());
            }
        }
    }

    /// Sends the packet off and starts a new one.
    fn flush(&mut self)
        requires
            old(self).wf(),
        ensures
            final(self).wf(),
            final(self)@ == old(self)@.flush(),
    {
        assert forall|i: int| 0 <= i < self.current_packet@.len() implies (
        #[trigger] self.current_packet@[i]).writable() by {
            assert(self@.current[i].writable());
        }
        let bytes = self.current_packet.serialize();
        self.sent_packets = self.sent_packets.saturating_add(1);
        self.sent_bytes = self.sent_bytes.saturating_add(bytes.len() as u64);
        let ghost packet = self.current_packet@;
        let ghost sent = self.sent@;
        let ghost before = self.datagrams@;
        self.datagrams.push(bytes);
        self.sent = Ghost(sent.push(packet));
        self.current_packet = Packet::new();
        assert forall|i: int| 0 <= i < self.datagrams@.len() implies (
        #[trigger] self.datagrams@[i])@ == packet_wire(self.sent@[i]) by {
            if i < before.len() {
                assert(before[i]@ == packet_wire(sent[i]));
            }
        }
    }

    /// Makes room by sending the packet off. Fails on an empty packet.
    pub fn create_space(&mut self) -> (ok: bool)
        requires
            old(self).wf(),
        ensures
            final(self).wf(),
            (final(self)@, ok) == old(self)@.create_space(),
    {
        if self.current_packet.blob_count() == 0 {
            return false;
        }
        self.flush();
        true
    }

    /// Makes sure that a blob of `space_needed` bytes fits, sending the
    /// packet off where it does not. Fails where it fits no empty packet.
    pub fn ensure_space(&mut self, space_needed: u16) -> (ok: bool)
        requires
            old(self).wf(),
        ensures
            final(self).wf(),
            (final(self)@, ok) == old(self)@.ensure_space(space_needed as int),
    {
        if self.space_left() < space_needed {
            if !self.create_space() {
                return false;
            }
            if self.space_left() < space_needed {
                return false;
            }
        }
        true
    }

    /// Makes sure that `blob` fits and adds it.
    pub fn add(&mut self, blob: Blob) -> (ok: bool)
        requires
            old(self).wf(),
            blob@.sized(),
            blob@.writable(),
        ensures
            final(self).wf(),
            (final(self)@, ok) == old(self)@.add(blob@),
    {
        if !self.ensure_space(blob.size()) {
            return false;
        }
        self.push(blob);
        true
    }

    /// Adds the blobs in order, up to the first that does not fit.
    pub fn add_all(&mut self, blobs: Vec<Blob>) -> (ok: bool)
        requires
            old(self).wf(),
            forall|i: int| 0 <= i < blobs.len() ==> (#[trigger] blobs[i])@.sized() && blobs[i]@.writable(),
        ensures
            final(self).wf(),
            (final(self)@, ok) == old(self)@.add_all(blobs_view(blobs@), 0),
    {
        let ghost views = blobs_view(blobs@);
        let ghost start = self@;
        for blob in it: blobs.into_iter()
            invariant
                self.wf(),
                it.seq() == blobs@,
                views == blobs_view(blobs@),
                start == old(self)@,
                forall|i: int| 0 <= i < blobs.len() ==> (#[trigger] blobs[i])@.sized() && blobs[i]@.writable(),
                self@.add_all(views, it.index() as int) == start.add_all(views, 0),
        {
            let ghost i = it.index() as int;
            let ghost prev = self@;
            assert(views[i] == blob@);
            assert(blobs[i]@.sized() && blobs[i]@.writable());
            let ok = self.add(blob);
            proof {
                let (next, fits) = prev.add(views[i]);
                assert(next == self@ && fits == ok);
                assert(prev.add_all(views, i) == if fits {
                    next.add_all(views, i + 1)
                } else {
                    (next, false)
                });
            }
            if !ok {
                return false;
            }
        }
        true
    }

    /// Carves one wave of fragments from `message` into the packets. `wave`
    /// starts as a copy of what is delivered and ends as what the wave has
    /// reached. Fails where an empty packet has no room for a fragment.
    pub fn carve(&mut self, message: &mut SendMessage, wave: &mut DeliveredIntervals) -> (ok: bool)
        requires
            old(self).wf(),
            old(message).wf(),
            old(wave).wf(),
            old(wave).size() == old(message)@.data.len(),
        ensures
            final(self).wf(),
            final(message).wf(),
            final(message)@ == old(message)@,
            final(wave).wf(),
            final(wave).size() == old(wave).size(),
            (final(self)@, final(wave).ranges(), ok) == carve(
                old(self)@,
                old(message)@,
                old(wave).ranges(),
            ),
    {
        let ghost size = wave.size();
        loop
            invariant
                self.wf(),
                message.wf(),
                message@ == old(message)@,
                wave.wf(),
                wave.size() == size,
                size == old(wave).size(),
                size == message@.data.len(),
                carve(self@, message@, wave.ranges()) == carve(
                    old(self)@,
                    old(message)@,
                    old(wave).ranges(),
                ),
            decreases wave_remaining(wave.ranges(), size), self@.current.len(),
        {
            let available = self.fragment_room();
            let ghost g = self@;
            let ghost before = wave.ranges();
            proof {
                if gaps_from(before, size, 0).len() > 0 && available > 10 {
                    lemma_carve_progress(before, size, available);
                }
            }
            match message.create_blob(wave, available) {
                None => {
                    return true;
                },
                Some(None) => {
                    if !self.create_space() {
                        return false;
                    }
                },
                Some(Some(blob)) => {
                    assert(available < 0xffff);
                    self.push(blob);
                },
            }
        }
    }

    /// Ends the packing: the last packet is sent off and counted where it
    /// holds a blob.
    pub fn finish(&mut self)
        requires
            old(self).wf(),
        ensures
            final(self).wf(),
            final(self)@ == old(self)@.finish(),
    {
        if self.current_packet.blob_count() > 0 {
            self.flush();
        }
    }

    /// The datagrams of the packets that were sent off, in order. The
    /// packet that is being filled is not among them.
    pub fn into_datagrams(self) -> (datagrams: Vec<Vec<u8>>)
        requires
            self.wf(),
        ensures
            datagrams_view(datagrams@) == wire_all(self@.sent),
    {
        assert(datagrams_view(self.datagrams@) =~= wire_all(self@.sent));
        self.datagrams
    }
}

/// Carves a wave from each message that is due at `time`, up to the first
/// that does not go through.
pub fn pack_messages(
    grouper: &mut PacketGrouper,
    messages: &mut Vec<SendMessage>,
    time: u128,
    resend_delay: Option<u128>,
) -> (ok: bool)
    requires
        old(grouper).wf(),
        forall|i: int| 0 <= i < old(messages).len() ==> (#[trigger] old(messages)[i]).wf(),
    ensures
        final(grouper).wf(),
        forall|i: int| 0 <= i < final(messages).len() ==> (#[trigger] final(messages)[i]).wf(),
        final(messages).len() == old(messages).len(),
        forall|i: int|
            0 <= i < final(messages).len() ==> (#[trigger] final(messages)[i])@.fragmentation_id
                == old(messages)[i]@.fragmentation_id,
        (final(grouper)@, sends_view(final(messages)@), ok) == pack_from(
            old(grouper)@,
            sends_view(old(messages)@),
            time,
            resend_delay,
            0,
        ),
{
    let mut i: usize = 0;
    while i < messages.len()
        invariant
            grouper.wf(),
            i <= messages.len(),
            messages.len() == old(messages).len(),
            forall|k: int| 0 <= k < messages.len() ==> (#[trigger] messages[k]).wf(),
            forall|k: int|
                0 <= k < messages.len() ==> (#[trigger] messages[k])@.fragmentation_id == old(
                    messages,
                )[k]@.fragmentation_id,
            pack_from(grouper@, sends_view(messages@), time, resend_delay, i as int) == pack_from(
                old(grouper)@,
                sends_view(old(messages)@),
                time,
                resend_delay,
                0,
            ),
        decreases messages.len() - i,
    {
        let ghost views = sends_view(messages@);
        let ghost before = messages@;
        let ghost g = grouper@;
        assert(views[i as int] == messages[i as int]@);
        if messages[i].is_due(time, resend_delay) {
            let mut wave = messages[i].get_deliverd_intervals();
            let ok = grouper.carve(&mut messages[i], &mut wave);
            proof {
                assert(messages@ == before.update(i as int, messages[i as int]));
                assert(sends_view(messages@) =~= views);
            }
            if !ok {
                proof {
                    assert forall|k: int| 0 <= k < messages.len() implies (
                    #[trigger] messages[k]).wf() by {
                        if k != i {
                            assert(messages[k] == before[k]);
                        }
                    }
                    assert forall|k: int| 0 <= k < messages.len() implies (
                    #[trigger] messages[k])@.fragmentation_id == old(
                        messages,
                    )[k]@.fragmentation_id by {
                        if k != i {
                            assert(messages[k] == before[k]);
                        }
                    }
                }
                return false;
            }
            let ghost carved = messages@;
            let ghost reached = wave.ranges();
            match messages[i].reliable() {
                Some(last_sent) => {
                    *last_sent = Some(time);
                },
                None => {
                    messages[i].set_delivered_intervals(wave);
                },
            }
            proof {
                assert(messages@ == carved.update(i as int, messages[i as int]));
                assert(messages[i as int]@ == after_wave(views[i as int], reached, time));
                assert(sends_view(messages@) =~= views.update(
                    i as int,
                    after_wave(views[i as int], reached, time),
                ));
                assert forall|k: int| 0 <= k < messages.len() implies (#[trigger] messages[k]).wf() by {
                    if k != i {
                        assert(messages[k] == before[k]);
                    }
                }
                assert forall|k: int| 0 <= k < messages.len() implies (
                #[trigger] messages[k])@.fragmentation_id == old(messages)[k]@.fragmentation_id by {
                    if k != i {
                        assert(messages[k] == before[k]);
                    }
                }
            }
        }
        i += 1;
    }
    true
}

/// The mathematical values of a list of outgoing messages.
pub open spec fn sends_view(messages: Seq<SendMessage>) -> Seq<SendMessageView> {
    Seq::new(messages.len(), |i: int| messages[i]@)
}

} // verus!
