//! Messages in flight: what a connection is still sending, and what it is
//! putting together from the fragments it receives.

use crate::intervals::{canonical, gaps_from, inserted, lemma_gaps_from, DeliveredIntervals};
use crate::packet::{Blob, BlobView, Fragment, FragmentView};
use std::ops::Range;
use vstd::prelude::*;

verus! {

/// The largest message that the wire format can describe.
pub const MAX_MESSAGE_SIZE: usize = 0xffff_ffff;

/// The number of fragmentation identifiers: they have fifteen bits.
pub const FRAGMENTATION_IDS: u16 = 0x8000;

/// An outgoing message as a mathematical value.
pub struct SendMessageView {
    /// The payload.
    pub data: Seq<u8>,
    /// `None` for an unreliable message; else the time of the last
    /// transmission, `Some(None)` before the first.
    pub reliable: Option<Option<u128>>,
    /// The identifier that its fragments carry.
    pub fragmentation_id: u16,
    /// The delivered byte ranges.
    pub delivered: Seq<(int, int)>,
}

/// An incoming message as a mathematical value.
pub struct ReceiveMessageView {
    /// The reassembly buffer, zero where nothing has arrived.
    pub data: Seq<u8>,
    /// Whether the sender asked for acknowledgements.
    pub reliable: bool,
    /// The identifier that its fragments carry.
    pub fragmentation_id: u16,
    /// The received byte ranges.
    pub delivered: Seq<(int, int)>,
    /// When the last fragment arrived.
    pub last_received_time: u128,
}

impl SendMessageView {
    /// The payload fits the wire format, the identifier has fifteen bits and
    /// the delivered ranges are canonical for the payload.
    pub open spec fn wf(self) -> bool {
        &&& self.data.len() <= MAX_MESSAGE_SIZE
        &&& self.fragmentation_id < FRAGMENTATION_IDS
        &&& canonical(self.delivered, self.data.len() as int)
    }

    /// Whether the whole payload is delivered.
    pub open spec fn finished(self) -> bool {
        self.delivered == seq![(0int, self.data.len() as int)]
    }

    /// The fragment that carries bytes `[lo, hi)` of the payload.
    pub open spec fn fragment(self, lo: int, hi: int) -> FragmentView {
        FragmentView {
            send_ack: self.reliable.is_some(),
            fragmentation_id: self.fragmentation_id,
            total_size: self.data.len() as u32,
            start: lo as u32,
            data: self.data.subrange(lo, hi),
        }
    }

    /// The message with bytes `[lo, hi)` recorded as delivered, as far as
    /// they lie within the payload.
    pub open spec fn deliver(self, lo: int, hi: int) -> SendMessageView {
        SendMessageView {
            delivered: inserted(self.delivered, self.data.len() as int, lo, hi),
            ..self
        }
    }
}

/// Where a fragment for `available` bytes of blob ends that starts at the
/// head of the hole `gap`: at the end of the hole, or where the space behind
/// the fragment header runs out.
pub open spec fn carve_end(gap: (int, int), available: int) -> int {
    if gap.1 <= gap.0 + available - 10 {
        gap.1
    } else {
        gap.0 + available - 10
    }
}

/// `data` with `piece` written over it from `start` on.
pub open spec fn overwrite(data: Seq<u8>, start: int, piece: Seq<u8>) -> Seq<u8> {
    Seq::new(
        data.len(),
        |i: int|
            if start <= i < start + piece.len() {
                piece[i - start]
            } else {
                data[i]
            },
    )
}

impl ReceiveMessageView {
    /// The buffer fits the wire format and the received ranges are canonical
    /// for the buffer.
    pub open spec fn wf(self) -> bool {
        &&& self.data.len() <= MAX_MESSAGE_SIZE
        &&& canonical(self.delivered, self.data.len() as int)
    }

    /// Whether every byte has arrived.
    pub open spec fn complete(self) -> bool {
        self.delivered == seq![(0int, self.data.len() as int)]
    }

    /// An empty buffer for the message that `fragment` belongs to.
    pub open spec fn blank(fragment: FragmentView) -> ReceiveMessageView {
        ReceiveMessageView {
            data: Seq::new(fragment.total_size as nat, |i: int| 0u8),
            reliable: fragment.send_ack,
            fragmentation_id: fragment.fragmentation_id,
            delivered: Seq::empty(),
            last_received_time: 0,
        }
    }

    /// Whether `fragment` agrees with the message: the same total size, and
    /// data within it.
    pub open spec fn accepts(self, fragment: FragmentView) -> bool {
        &&& fragment.total_size == self.data.len()
        &&& fragment.start + fragment.data.len() <= self.data.len()
    }

    /// The message with `fragment` written into it at `time`.
    pub open spec fn add(self, time: u128, fragment: FragmentView) -> ReceiveMessageView {
        ReceiveMessageView {
            data: overwrite(self.data, fragment.start as int, fragment.data),
            delivered: inserted(
                self.delivered,
                self.data.len() as int,
                fragment.start as int,
                fragment.start + fragment.data.len(),
            ),
            last_received_time: time,
            ..self
        }
    }
}

/// A message that a connection is trying to deliver.
pub struct SendMessage {
    data: Vec<u8>,
    reliable: Option<Option<u128>>,
    fragmentation_id: u16,
    delivered: DeliveredIntervals,
}

/// A message that a connection is putting together.
pub struct ReceiveMessage {
    data: Vec<u8>,
    reliable: bool,
    fragmentation_id: u16,
    delivered: DeliveredIntervals,
    last_received_time: u128,
}

impl View for SendMessage {
    type V = SendMessageView;

    closed spec fn view(&self) -> SendMessageView {
        SendMessageView {
            data: self.data@,
            reliable: self.reliable,
            fragmentation_id: self.fragmentation_id,
            delivered: self.delivered.ranges(),
        }
    }
}

impl View for ReceiveMessage {
    type V = ReceiveMessageView;

    closed spec fn view(&self) -> ReceiveMessageView {
        ReceiveMessageView {
            data: self.data@,
            reliable: self.reliable,
            fragmentation_id: self.fragmentation_id,
            delivered: self.delivered.ranges(),
            last_received_time: self.last_received_time,
        }
    }
}

/// The bytes `[from, to)` of `bytes`.
fn copy_range(bytes: &Vec<u8>, from: usize, to: usize) -> (out: Vec<u8>)
    requires
        from <= to <= bytes.len(),
    ensures
        out@ == bytes@.subrange(from as int, to as int),
{
    let mut out: Vec<u8> = Vec::new();
    let mut i: usize = from;
    while i < to
        invariant
            from <= i <= to <= bytes.len(),
            out@ == bytes@.subrange(from as int, i as int),
        decreases to - i,
    {
        out.push(bytes[i]);
        i += 1;
        assert(out@ =~= bytes@.subrange(from as int, i as int));
    }
    out
}

impl SendMessage {
    /// The view is well-formed and the delivered set is over the payload.
    pub closed spec fn wf(&self) -> bool {
        &&& self@.wf()
        &&& self.delivered.size() == self.data.len()
    }

    /// A well-formed message has a well-formed view.
    pub proof fn lemma_wf(&self)
        requires
            self.wf(),
        ensures
            self@.wf(),
    {
    }

    /// A message of which nothing is delivered yet.
    pub fn new(reliable: bool, fragmentation_id: u16, data: Vec<u8>) -> (message: Self)
        requires
            data.len() <= MAX_MESSAGE_SIZE,
            fragmentation_id < FRAGMENTATION_IDS,
        ensures
            message.wf(),
            message@ == (SendMessageView {
                data: data@,
                reliable: if reliable {
                    Some(None)
                } else {
                    None
                },
                fragmentation_id,
                delivered: Seq::empty(),
            }),
    {
        SendMessage {
            delivered: DeliveredIntervals::new(data.len()),
            data,
            reliable: if reliable {
                Some(None)
            } else {
                None
            },
            fragmentation_id,
        }
    }

    /// The identifier that the message's fragments carry.
    pub fn fragmentation_id(&self) -> (id: u16)
        ensures
            id == self@.fragmentation_id,
    {
        self.fragmentation_id
    }

    /// The length of the payload.
    pub fn len(&self) -> (n: usize)
        ensures
            n == self@.data.len(),
    {
        self.data.len()
    }

    /// `None` for an unreliable message; else the time of the last
    /// transmission, for the caller to read and to set.
    pub fn reliable(&mut self) -> (r: Option<&mut Option<u128>>)
        ensures
            match r {
                Some(last_sent) => old(self)@.reliable == Some(*last_sent) && final(self)@ == (
                    SendMessageView { reliable: Some(*final(last_sent)), ..old(self)@ }),
                None => old(self)@.reliable.is_none() && final(self)@ == old(self)@,
            },
            old(self).wf() ==> final(self).wf(),
    {
        match &mut self.reliable {
            Some(last_sent) => Some(last_sent),
            None => None,
        }
    }

    /// Whether fragments are due at `time`: always for an unreliable message
    /// and for a reliable one that was never sent; for one that was sent,
    /// once `resend_delay` is known and has passed since.
    pub fn is_due(&self, time: u128, resend_delay: Option<u128>) -> (due: bool)
        ensures
            due == spec_is_due(self@.reliable, time, resend_delay),
    {
        match self.reliable {
            None => true,
            Some(None) => true,
            Some(Some(last_sent)) => match resend_delay {
                None => false,
                Some(delay) => match last_sent.checked_add(delay) {
                    Some(resend_time) => resend_time <= time,
                    None => false,
                },
            },
        }
    }

    /// A copy of the delivered ranges, to carve one wave of fragments from.
    pub fn get_deliverd_intervals(&self) -> (delivered: DeliveredIntervals)
        requires
            self.wf(),
        ensures
            delivered.wf(),
            delivered.size() == self@.data.len(),
            delivered.ranges() == self@.delivered,
    {
        self.delivered.duplicate()
    }

    /// Replaces the delivered ranges by `delivered`, which must be over this
    /// message's payload.
    pub fn set_delivered_intervals(&mut self, delivered: DeliveredIntervals)
        requires
            old(self).wf(),
            delivered.wf(),
            delivered.size() == old(self)@.data.len(),
        ensures
            final(self).wf(),
            final(self)@ == (SendMessageView { delivered: delivered.ranges(), ..old(self)@ }),
    {
        self.delivered = delivered;
    }

    /// Records that `range` of the payload is delivered, as an
    /// acknowledgement says. Fails, and changes nothing, when the range
    /// reaches behind the payload.
    pub fn set_delivered(&mut self, range: Range<usize>) -> (r: Result<(), ()>)
        requires
            old(self).wf(),
        ensures
            final(self).wf(),
            r.is_err() <==> range.end > old(self)@.data.len(),
            r.is_err() ==> final(self)@ == old(self)@,
            r.is_ok() ==> final(self)@ == old(self)@.deliver(range.start as int, range.end as int),
    {
        if range.end > self.data.len() {
            return Err(());
        }
        self.delivered.set_delivered(range);
        Ok(())
    }

    /// Carves the next fragment of one wave. `delivered` holds what the wave
    /// has carved so far on top of what is delivered.
    ///
    /// Returns `None` when `delivered` has no hole left. Returns `Some(None)`
    /// when `available_space` leaves no room for data behind the ten bytes of
    /// the fragment header. Otherwise the fragment starts at the head of the
    /// first hole and ends with the hole or with the space, and `delivered`
    /// records its bytes. `available_space` is the room for the fragment:
    /// the blob's type tag comes on top of it.
    pub fn create_blob(&mut self, delivered: &mut DeliveredIntervals, available_space: u16) -> (r:
        Option<Option<Blob>>)
        requires
            old(self).wf(),
            old(delivered).wf(),
            old(delivered).size() == old(self)@.data.len(),
        ensures
            final(self).wf(),
            final(self)@ == old(self)@,
            final(delivered).wf(),
            final(delivered).size() == old(delivered).size(),
            carved_view(r) == spec_create_blob(
                old(self)@,
                old(delivered).ranges(),
                available_space,
            ).0,
            final(delivered).ranges() == spec_create_blob(
                old(self)@,
                old(delivered).ranges(),
                available_space,
            ).1,
            match r {
                Some(Some(blob)) => available_space < 0xffff ==> blob@.valid(),
                _ => true,
            },
    {
        let gap = match delivered.first_gap() {
            Some(gap) => gap,
            None => { return None; },
        };
        if available_space <= Fragment::HEADER_SIZE as u16 {
            return Some(None);
        }
        let space: usize = (available_space - Fragment::HEADER_SIZE as u16) as usize;
        proof {
            lemma_gaps_from(delivered.ranges(), delivered.size(), 0);
            let gaps = delivered.spec_gaps();
            assert(0 <= gaps[0].0 < gaps[0].1 <= delivered.size());
        }
        let end: usize = if gap.end - gap.start <= space {
            gap.end
        } else {
            gap.start + space
        };
        delivered.set_delivered(gap.start..end);
        let data = copy_range(&self.data, gap.start, end);
        Some(
            Some(
                Blob::Fragment(
                    Fragment {
                        send_ack: self.reliable.is_some(),
                        fragmentation_id: self.fragmentation_id,
                        total_size: self.data.len() as u32,
                        start: gap.start as u32,
                        data,
                    },
                ),
            ),
        )
    }

    /// Whether the whole payload is delivered.
    pub fn delivered(&self) -> (b: bool)
        requires
            self.wf(),
        ensures
            b == self@.finished(),
    {
        self.delivered.finished()
    }
}

/// Whether fragments of a message are due at `time`.
pub open spec fn spec_is_due(
    reliable: Option<Option<u128>>,
    time: u128,
    resend_delay: Option<u128>,
) -> bool {
    match reliable {
        None => true,
        Some(None) => true,
        Some(Some(last_sent)) => match resend_delay {
            None => false,
            Some(delay) => last_sent + delay <= time,
        },
    }
}

/// The mathematical value of what [`SendMessage::create_blob`] returns.
pub open spec fn carved_view(r: Option<Option<Blob>>) -> Option<Option<BlobView>> {
    match r {
        None => None,
        Some(None) => Some(None),
        Some(Some(blob)) => Some(Some(blob@)),
    }
}

/// What [`SendMessage::create_blob`] hands out for a message, the ranges of
/// the wave so far and the space left, and the ranges of the wave afterwards.
pub open spec fn spec_create_blob(
    message: SendMessageView,
    wave: Seq<(int, int)>,
    available: u16,
) -> (Option<Option<BlobView>>, Seq<(int, int)>) {
    let size = message.data.len() as int;
    let gaps = gaps_from(wave, size, 0);
    if gaps.len() == 0 {
        (None, wave)
    } else if available <= 10 {
        (Some(None), wave)
    } else {
        let lo = gaps[0].0;
        let hi = carve_end(gaps[0], available as int);
        (Some(Some(BlobView::Fragment(message.fragment(lo, hi)))), inserted(wave, size, lo, hi))
    }
}

impl ReceiveMessage {
    /// The view is well-formed and the received set is over the buffer.
    pub closed spec fn wf(&self) -> bool {
        &&& self@.wf()
        &&& self.delivered.size() == self.data.len()
    }

    /// A well-formed message has a well-formed view.
    pub proof fn lemma_wf(&self)
        requires
            self.wf(),
        ensures
            self@.wf(),
    {
    }

    /// Starts a message from its first fragment. Fails when the fragment's
    /// data does not lie within the size it announces.
    pub fn new(time: u128, fragment: Fragment) -> (r: Result<Self, ()>)
        ensures
            r.is_ok() <==> fragment.start + fragment.data.len() <= fragment.total_size,
            match r {
                Ok(message) => message.wf() && message@ == ReceiveMessageView::blank(fragment@).add(
                    time,
                    fragment@,
                ),
                Err(_) => true,
            },
    {
        let size = fragment.total_size as usize;
        let mut message = ReceiveMessage {
            data: vec![0u8; size],
            reliable: fragment.send_ack,
            fragmentation_id: fragment.fragmentation_id,
            delivered: DeliveredIntervals::new(size),
            last_received_time: 0,
        };
        assert(message@.data =~= ReceiveMessageView::blank(fragment@).data);
        assert(message@ == ReceiveMessageView::blank(fragment@));
        match message.add_fragment(time, fragment) {
            Ok(()) => Ok(message),
            Err(()) => Err(()),
        }
    }

    /// Writes a fragment into the buffer and records its range. Fails, and
    /// changes nothing, when the fragment announces another total size than
    /// the message has, or when its data does not lie within the buffer.
    pub fn add_fragment(&mut self, time: u128, fragment: Fragment) -> (r: Result<(), ()>)
        requires
            old(self).wf(),
        ensures
            final(self).wf(),
            r.is_ok() <==> old(self)@.accepts(fragment@),
            r.is_ok() ==> final(self)@ == old(self)@.add(time, fragment@),
            r.is_err() ==> final(self)@ == old(self)@,
    {
        let size = self.data.len();
        let start = fragment.start as usize;
        let len = fragment.data.len();
        if fragment.total_size as usize != size || start > size || len > size - start {
            return Err(());
        }
        let mut i: usize = 0;
        while i < len
            invariant
                i <= len,
                len == fragment.data.len(),
                start + len <= size,
                self.data.len() == size,
                self.delivered == old(self).delivered,
                self.reliable == old(self).reliable,
                self.fragmentation_id == old(self).fragmentation_id,
                self.last_received_time == old(self).last_received_time,
                self.data@ == overwrite(old(self).data@, start as int, fragment.data@.take(i as int)),
            decreases len - i,
        {
            self.data.set(start + i, fragment.data[i]);
            i += 1;
            assert(self.data@ =~= overwrite(
                old(self).data@,
                start as int,
                fragment.data@.take(i as int),
            ));
        }
        assert(fragment.data@.take(i as int) =~= fragment.data@);
        self.delivered.set_delivered(start..start + len);
        self.last_received_time = time;
        Ok(())
    }

    /// The identifier that the message's fragments carry.
    pub fn fragmentation_id(&self) -> (id: u16)
        ensures
            id == self@.fragmentation_id,
    {
        self.fragmentation_id
    }

    /// Whether every byte has arrived.
    pub fn complete(&self) -> (b: bool)
        requires
            self.wf(),
        ensures
            b == self@.complete(),
    {
        self.delivered.finished()
    }

    /// The buffer.
    pub fn data(self) -> (data: Vec<u8>)
        ensures
            data@ == self@.data,
    {
        self.data
    }

    /// Whether the sender asked for acknowledgements.
    pub fn is_reliable(&self) -> (b: bool)
        ensures
            b == self@.reliable,
    {
        self.reliable
    }

    /// When the last fragment arrived.
    pub fn last_received_time(&self) -> (time: u128)
        ensures
            time == self@.last_received_time,
    {
        self.last_received_time
    }
}

} // verus!
