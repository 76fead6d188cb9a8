//! The wire format: packets of length-prefixed blobs, and the handshake.
//!
//! All multi-byte integers are big-endian. A packet is a concatenation of
//! blobs, each behind a two-byte length. A blob is a one-byte type tag and a
//! body. A handshake is a datagram of its own and never parses as a packet.

use vstd::prelude::*;
use vstd::slice::slice_subrange;

verus! {

/// The two bytes of `x`, most significant first.
pub open spec fn be16(x: u16) -> Seq<u8> {
    seq![(x / 0x100) as u8, (x % 0x100) as u8]
}

/// The four bytes of `x`, most significant first.
pub open spec fn be32(x: u32) -> Seq<u8> {
    be16((x / 0x1_0000) as u16) + be16((x % 0x1_0000) as u16)
}

/// The eight bytes of `x`, most significant first.
pub open spec fn be64(x: u64) -> Seq<u8> {
    be32((x / 0x1_0000_0000) as u32) + be32((x % 0x1_0000_0000) as u32)
}

/// The number that two bytes spell, most significant first.
pub open spec fn from_be16(s: Seq<u8>) -> u16 {
    (s[0] as int * 0x100 + s[1] as int) as u16
}

/// The number that four bytes spell, most significant first.
pub open spec fn from_be32(s: Seq<u8>) -> u32 {
    (from_be16(s.subrange(0, 2)) as int * 0x1_0000 + from_be16(s.subrange(2, 4)) as int) as u32
}

/// The number that eight bytes spell, most significant first.
pub open spec fn from_be64(s: Seq<u8>) -> u64 {
    (from_be32(s.subrange(0, 4)) as int * 0x1_0000_0000 + from_be32(s.subrange(4, 8)) as int) as u64
}

/// Two bytes spell the number they were made from.
pub proof fn lemma_be16(x: u16)
    ensures
        be16(x).len() == 2,
        from_be16(be16(x)) == x,
{
}

/// A number spells the two bytes it was read from.
pub proof fn lemma_from_be16(s: Seq<u8>)
    requires
        s.len() == 2,
    ensures
        be16(from_be16(s)) == s,
{
    assert(be16(from_be16(s)) =~= s);
}

/// Four bytes spell the number they were made from.
pub proof fn lemma_be32(x: u32)
    ensures
        be32(x).len() == 4,
        from_be32(be32(x)) == x,
{
    let hi = (x / 0x1_0000) as u16;
    let lo = (x % 0x1_0000) as u16;
    lemma_be16(hi);
    lemma_be16(lo);
    assert(be32(x).subrange(0, 2) =~= be16(hi));
    assert(be32(x).subrange(2, 4) =~= be16(lo));
}

/// A number spells the four bytes it was read from.
pub proof fn lemma_from_be32(s: Seq<u8>)
    requires
        s.len() == 4,
    ensures
        be32(from_be32(s)) == s,
{
    let hi = from_be16(s.subrange(0, 2));
    let lo = from_be16(s.subrange(2, 4));
    lemma_from_be16(s.subrange(0, 2));
    lemma_from_be16(s.subrange(2, 4));
    let x = from_be32(s);
    assert((x / 0x1_0000) as u16 == hi);
    assert((x % 0x1_0000) as u16 == lo);
    assert(be32(x) =~= s);
}

/// Eight bytes spell the number they were made from.
pub proof fn lemma_be64(x: u64)
    ensures
        be64(x).len() == 8,
        from_be64(be64(x)) == x,
{
    let hi = (x / 0x1_0000_0000) as u32;
    let lo = (x % 0x1_0000_0000) as u32;
    lemma_be32(hi);
    lemma_be32(lo);
    assert(be64(x).subrange(0, 4) =~= be32(hi));
    assert(be64(x).subrange(4, 8) =~= be32(lo));
}

/// A number spells the eight bytes it was read from.
pub proof fn lemma_from_be64(s: Seq<u8>)
    requires
        s.len() == 8,
    ensures
        be64(from_be64(s)) == s,
{
    let hi = from_be32(s.subrange(0, 4));
    let lo = from_be32(s.subrange(4, 8));
    lemma_from_be32(s.subrange(0, 4));
    lemma_from_be32(s.subrange(4, 8));
    let x = from_be64(s);
    assert((x / 0x1_0000_0000) as u32 == hi);
    assert((x % 0x1_0000_0000) as u32 == lo);
    assert(be64(x) =~= s);
}

/// The type tag of a fragment blob.
pub const TAG_FRAGMENT: u8 = 0;

/// The type tag of a heartbeat blob.
pub const TAG_HEARTBEAT: u8 = 1;

/// The type tag of a heartbeat response blob.
pub const TAG_HEARTBEAT_RESPONSE: u8 = 2;

/// The type tag of an acknowledgement blob.
pub const TAG_ACKNOWLEDGEMENT: u8 = 3;

/// The type tag of a disconnect blob.
pub const TAG_DISCONNECT: u8 = 4;

/// The number of bytes of a fragment in front of its data.
pub const FRAGMENT_HEADER_SIZE: usize = 10;

/// The number of bytes of a handshake datagram.
pub const HANDSHAKE_SIZE: usize = 16;

/// A piece of a message.
///
/// Layout: one bit `send_ack` and fifteen bits `fragmentation_id`, four
/// bytes `total_size`, four bytes `start`, then the data.
pub struct Fragment {
    /// Whether the message is reliable, so that the receiver must acknowledge.
    pub send_ack: bool,
    /// The message's identifier, below `0x8000`.
    pub fragmentation_id: u16,
    /// The length of the whole message.
    pub total_size: u32,
    /// The offset of `data` within the message.
    pub start: u32,
    /// The bytes of the message from `start` on.
    pub data: Vec<u8>,
}

/// A liveness probe, which carries the sender's clock in milliseconds. It
/// comes back as a heartbeat response, from which the round trip time follows.
#[derive(Clone, Copy, Debug)]
pub struct Heartbeat {
    send_time: u64,
}

/// The receipt of bytes `[start, start + len)` of a reliable message.
#[derive(Clone, Copy, Debug, PartialEq, Eq, Structural)]
pub struct Acknowledgement {
    /// The message's identifier.
    pub fragmentation_id: u16,
    /// The offset of the received bytes.
    pub start: u32,
    /// The number of received bytes.
    pub len: u16,
}

/// The opening datagram of a connection: a magic word and the protocol identifier.
#[derive(Clone, Copy, Debug, PartialEq, Eq, Structural)]
pub struct Handshake {
    /// Peers only connect when their protocol identifiers agree.
    pub protocol_id: u64,
}

/// A unit of a packet.
pub enum Blob {
    /// Tag `0`.
    Fragment(Fragment),
    /// Tag `1`.
    Heartbeat(Heartbeat),
    /// Tag `2`.
    HeartbeatResponse(Heartbeat),
    /// Tag `3`.
    Acknowledgement(Acknowledgement),
    /// Tag `4`.
    Disconnect,
}

/// The payload of one datagram: a sequence of blobs.
pub struct Packet {
    blobs: Vec<Blob>,
}

/// A fragment as a mathematical value.
pub struct FragmentView {
    /// Whether the message is reliable, so that the receiver must acknowledge.
    pub send_ack: bool,
    /// The message's identifier.
    pub fragmentation_id: u16,
    /// The length of the whole message.
    pub total_size: u32,
    /// The offset of `data` within the message.
    pub start: u32,
    /// The bytes of the message from `start` on.
    pub data: Seq<u8>,
}

/// A blob as a mathematical value.
pub enum BlobView {
    /// A piece of a message.
    Fragment(FragmentView),
    /// A heartbeat, as its send time in milliseconds.
    Heartbeat(u64),
    /// The echo of a heartbeat, as the send time that it echoes.
    HeartbeatResponse(u64),
    /// The receipt of bytes of a reliable message.
    Acknowledgement(Acknowledgement),
    /// The sender closes the connection.
    Disconnect,
}

impl FragmentView {
    /// The first sixteen bits: the acknowledgement flag above the identifier.
    pub open spec fn word(self) -> u16 {
        if self.send_ack {
            (0x8000 + self.fragmentation_id) as u16
        } else {
            self.fragmentation_id
        }
    }

    /// The fragment's bytes on the wire.
    pub open spec fn wire(self) -> Seq<u8> {
        be16(self.word()) + be32(self.total_size) + be32(self.start) + self.data
    }

    /// A blob of this fragment has a length that two bytes can hold.
    pub open spec fn sized(self) -> bool {
        self.data.len() + 11 <= 0xffff
    }

    /// The identifier has fifteen bits and the data lies within the message.
    pub open spec fn valid(self) -> bool {
        &&& self.fragmentation_id < 0x8000
        &&& self.start + self.data.len() <= self.total_size
        &&& self.sized()
    }
}

impl BlobView {
    /// The blob's type tag.
    pub open spec fn tag(self) -> u8 {
        match self {
            BlobView::Fragment(_) => TAG_FRAGMENT,
            BlobView::Heartbeat(_) => TAG_HEARTBEAT,
            BlobView::HeartbeatResponse(_) => TAG_HEARTBEAT_RESPONSE,
            BlobView::Acknowledgement(_) => TAG_ACKNOWLEDGEMENT,
            BlobView::Disconnect => TAG_DISCONNECT,
        }
    }

    /// The bytes behind the type tag.
    pub open spec fn body(self) -> Seq<u8> {
        match self {
            BlobView::Fragment(fragment) => fragment.wire(),
            BlobView::Heartbeat(time) => be64(time),
            BlobView::HeartbeatResponse(time) => be64(time),
            BlobView::Acknowledgement(ack) => be16(ack.fragmentation_id) + be32(ack.start) + be16(
                ack.len,
            ),
            BlobView::Disconnect => Seq::empty(),
        }
    }

    /// The blob's bytes on the wire, without its length prefix.
    pub open spec fn wire(self) -> Seq<u8> {
        seq![self.tag()] + self.body()
    }

    /// The blob's length fits the two bytes of a length prefix.
    pub open spec fn sized(self) -> bool {
        match self {
            BlobView::Fragment(fragment) => fragment.sized(),
            _ => true,
        }
    }

    /// The blob can be written: a fragment's identifier has fifteen bits.
    pub open spec fn writable(self) -> bool {
        match self {
            BlobView::Fragment(fragment) => fragment.fragmentation_id < 0x8000,
            _ => true,
        }
    }

    /// The blob can be sent and read back: a fragment is valid, the others always are.
    pub open spec fn valid(self) -> bool {
        match self {
            BlobView::Fragment(fragment) => fragment.valid(),
            _ => true,
        }
    }
}

/// The blob behind its two-byte length.
pub open spec fn frame(blob: BlobView) -> Seq<u8> {
    be16(blob.wire().len() as u16) + blob.wire()
}

/// The bytes of a packet: its blobs' frames, one after the other.
pub open spec fn packet_wire(blobs: Seq<BlobView>) -> Seq<u8>
    decreases blobs.len(),
{
    if blobs.len() == 0 {
        Seq::empty()
    } else {
        frame(blobs[0]) + packet_wire(blobs.subrange(1, blobs.len() as int))
    }
}

/// The fragment that `s` spells, if it spells one: at least the header, and
/// data that lies within the message.
pub open spec fn parse_fragment(s: Seq<u8>) -> Option<FragmentView> {
    if s.len() < 10 {
        None
    } else {
        let word = from_be16(s.subrange(0, 2));
        let total_size = from_be32(s.subrange(2, 6));
        let start = from_be32(s.subrange(6, 10));
        let data = s.subrange(10, s.len() as int);
        if start + data.len() > total_size {
            None
        } else {
            Some(
                FragmentView {
                    send_ack: word >= 0x8000,
                    fragmentation_id: (word % 0x8000) as u16,
                    total_size,
                    start,
                    data,
                },
            )
        }
    }
}

/// The blob that `s` spells, if it spells one: a known tag and a body of
/// exactly the tag's layout.
pub open spec fn parse_blob(s: Seq<u8>) -> Option<BlobView> {
    if s.len() == 0 {
        None
    } else {
        let body = s.subrange(1, s.len() as int);
        if s[0] == TAG_FRAGMENT {
            match parse_fragment(body) {
                Some(fragment) => Some(BlobView::Fragment(fragment)),
                None => None,
            }
        } else if s[0] == TAG_HEARTBEAT {
            if body.len() == 8 {
                Some(BlobView::Heartbeat(from_be64(body)))
            } else {
                None
            }
        } else if s[0] == TAG_HEARTBEAT_RESPONSE {
            if body.len() == 8 {
                Some(BlobView::HeartbeatResponse(from_be64(body)))
            } else {
                None
            }
        } else if s[0] == TAG_ACKNOWLEDGEMENT {
            if body.len() == 8 {
                Some(
                    BlobView::Acknowledgement(
                        Acknowledgement {
                            fragmentation_id: from_be16(body.subrange(0, 2)),
                            start: from_be32(body.subrange(2, 6)),
                            len: from_be16(body.subrange(6, 8)),
                        },
                    ),
                )
            } else {
                None
            }
        } else if s[0] == TAG_DISCONNECT {
            if body.len() == 0 {
                Some(BlobView::Disconnect)
            } else {
                None
            }
        } else {
            None
        }
    }
}

/// `front` in front of `tail`, where there is a tail.
pub open spec fn prepend(front: Seq<BlobView>, tail: Option<Seq<BlobView>>) -> Option<
    Seq<BlobView>,
> {
    match tail {
        Some(rest) => Some(front + rest),
        None => None,
    }
}

/// The blobs that `s` spells, if it spells a packet: frames one after the
/// other, each of a blob, up to the last byte.
pub open spec fn parse_packet(s: Seq<u8>) -> Option<Seq<BlobView>>
    decreases s.len(),
{
    if s.len() == 0 {
        Some(Seq::empty())
    } else if s.len() < 2 {
        None
    } else {
        let n = from_be16(s.subrange(0, 2)) as int;
        if s.len() < 2 + n {
            None
        } else {
            match parse_blob(s.subrange(2, 2 + n)) {
                Some(blob) => prepend(seq![blob], parse_packet(s.subrange(2 + n, s.len() as int))),
                None => None,
            }
        }
    }
}

/// The magic word at the start of a handshake: `NIFTY-HS`.
pub open spec fn handshake_magic() -> Seq<u8> {
    seq![0x4eu8, 0x49u8, 0x46u8, 0x54u8, 0x59u8, 0x2du8, 0x48u8, 0x53u8]
}

/// The bytes of a handshake with the given protocol identifier.
pub open spec fn handshake_wire(protocol_id: u64) -> Seq<u8> {
    handshake_magic() + be64(protocol_id)
}

/// The protocol identifier of the handshake that `s` spells, if it spells one.
pub open spec fn parse_handshake(s: Seq<u8>) -> Option<u64> {
    if s.len() == 16 && s.subrange(0, 8) == handshake_magic() {
        Some(from_be64(s.subrange(8, 16)))
    } else {
        None
    }
}

impl View for Fragment {
    type V = FragmentView;

    open spec fn view(&self) -> FragmentView {
        FragmentView {
            send_ack: self.send_ack,
            fragmentation_id: self.fragmentation_id,
            total_size: self.total_size,
            start: self.start,
            data: self.data@,
        }
    }
}

impl View for Heartbeat {
    type V = u64;

    closed spec fn view(&self) -> u64 {
        self.send_time
    }
}

impl View for Blob {
    type V = BlobView;

    open spec fn view(&self) -> BlobView {
        match self {
            Blob::Fragment(fragment) => BlobView::Fragment(fragment@),
            Blob::Heartbeat(heartbeat) => BlobView::Heartbeat(heartbeat@),
            Blob::HeartbeatResponse(heartbeat) => BlobView::HeartbeatResponse(heartbeat@),
            Blob::Acknowledgement(ack) => BlobView::Acknowledgement(*ack),
            Blob::Disconnect => BlobView::Disconnect,
        }
    }
}

/// The mathematical values of a list of blobs.
pub open spec fn blobs_view(blobs: Seq<Blob>) -> Seq<BlobView> {
    Seq::new(blobs.len(), |i: int| blobs[i]@)
}

impl View for Packet {
    type V = Seq<BlobView>;

    closed spec fn view(&self) -> Seq<BlobView> {
        blobs_view(self.blobs@)
    }
}

/// A fragment that was written is read back as it was.
pub proof fn lemma_fragment_round_trip(fragment: FragmentView)
    requires
        fragment.valid(),
    ensures
        fragment.wire().len() == 10 + fragment.data.len(),
        parse_fragment(fragment.wire()) == Some(fragment),
{
    let s = fragment.wire();
    let word = fragment.word();
    lemma_be16(word);
    lemma_be32(fragment.total_size);
    lemma_be32(fragment.start);
    assert(s.subrange(0, 2) =~= be16(word));
    assert(s.subrange(2, 6) =~= be32(fragment.total_size));
    assert(s.subrange(6, 10) =~= be32(fragment.start));
    assert(s.subrange(10, s.len() as int) =~= fragment.data);
}

/// A fragment that was read is written back as the bytes it was read from.
pub proof fn lemma_fragment_reserialized(s: Seq<u8>)
    requires
        parse_fragment(s).is_some(),
    ensures
        parse_fragment(s).unwrap().wire() == s,
        parse_fragment(s).unwrap().fragmentation_id < 0x8000,
        parse_fragment(s).unwrap().start + parse_fragment(s).unwrap().data.len() <= parse_fragment(
            s,
        ).unwrap().total_size,
{
    let fragment = parse_fragment(s).unwrap();
    let word = from_be16(s.subrange(0, 2));
    assert(fragment.word() == word);
    lemma_from_be16(s.subrange(0, 2));
    lemma_from_be32(s.subrange(2, 6));
    lemma_from_be32(s.subrange(6, 10));
    assert(fragment.wire() =~= s.subrange(0, 2) + s.subrange(2, 6) + s.subrange(6, 10)
        + s.subrange(10, s.len() as int));
    assert(fragment.wire() =~= s);
}

/// A blob that was written is read back as it was.
pub proof fn lemma_blob_round_trip(blob: BlobView)
    requires
        blob.valid(),
    ensures
        parse_blob(blob.wire()) == Some(blob),
{
    let s = blob.wire();
    let body = s.subrange(1, s.len() as int);
    assert(body =~= blob.body());
    assert(s[0] == blob.tag());
    match blob {
        BlobView::Fragment(fragment) => {
            lemma_fragment_round_trip(fragment);
        },
        BlobView::Heartbeat(time) => {
            lemma_be64(time);
        },
        BlobView::HeartbeatResponse(time) => {
            lemma_be64(time);
        },
        BlobView::Acknowledgement(ack) => {
            lemma_be16(ack.fragmentation_id);
            lemma_be32(ack.start);
            lemma_be16(ack.len);
            assert(body.subrange(0, 2) =~= be16(ack.fragmentation_id));
            assert(body.subrange(2, 6) =~= be32(ack.start));
            assert(body.subrange(6, 8) =~= be16(ack.len));
        },
        BlobView::Disconnect => {},
    }
}

/// A blob that was read is written back as the bytes it was read from.
pub proof fn lemma_blob_reserialized(s: Seq<u8>)
    requires
        parse_blob(s).is_some(),
    ensures
        parse_blob(s).unwrap().wire() == s,
{
    let blob = parse_blob(s).unwrap();
    let body = s.subrange(1, s.len() as int);
    match blob {
        BlobView::Fragment(fragment) => {
            lemma_fragment_reserialized(body);
        },
        BlobView::Heartbeat(time) => {
            lemma_from_be64(body);
        },
        BlobView::HeartbeatResponse(time) => {
            lemma_from_be64(body);
        },
        BlobView::Acknowledgement(ack) => {
            lemma_from_be16(body.subrange(0, 2));
            lemma_from_be32(body.subrange(2, 6));
            lemma_from_be16(body.subrange(6, 8));
            assert(blob.body() =~= body.subrange(0, 2) + body.subrange(2, 6) + body.subrange(
                6,
                8,
            ));
            assert(blob.body() =~= body);
        },
        BlobView::Disconnect => {
            assert(blob.body() =~= body);
        },
    }
    assert(blob.wire() =~= s);
}

/// The length of a blob on the wire.
pub proof fn lemma_blob_len(blob: BlobView)
    ensures
        blob.wire().len() == match blob {
            BlobView::Fragment(fragment) => 11 + fragment.data.len(),
            BlobView::Heartbeat(_) => 9,
            BlobView::HeartbeatResponse(_) => 9,
            BlobView::Acknowledgement(_) => 9,
            BlobView::Disconnect => 1,
        },
        blob.sized() ==> blob.wire().len() <= 0xffff,
        frame(blob).len() == blob.wire().len() + 2,
{
}

/// A packet with one more blob is the packet's bytes and then the blob's frame.
pub proof fn lemma_packet_wire_push(blobs: Seq<BlobView>, blob: BlobView)
    ensures
        packet_wire(blobs.push(blob)) == packet_wire(blobs) + frame(blob),
    decreases blobs.len(),
{
    let all = blobs.push(blob);
    if blobs.len() == 0 {
        assert(all.subrange(1, all.len() as int) =~= Seq::<BlobView>::empty());
        assert(packet_wire(all.subrange(1, all.len() as int)) =~= Seq::<u8>::empty());
        assert(packet_wire(all) =~= frame(blob));
        assert(packet_wire(blobs) + frame(blob) =~= frame(blob));
    } else {
        let rest = blobs.subrange(1, blobs.len() as int);
        lemma_packet_wire_push(rest, blob);
        assert(all.subrange(1, all.len() as int) =~= rest.push(blob));
        assert(all[0] == blobs[0]);
        assert(packet_wire(all) =~= packet_wire(blobs) + frame(blob));
    }
}

/// The bytes of a packet's first `i` blobs are no longer than the bytes of all.
pub proof fn lemma_packet_wire_prefix(blobs: Seq<BlobView>, i: int)
    requires
        0 <= i <= blobs.len(),
    ensures
        packet_wire(blobs.take(i)).len() <= packet_wire(blobs).len(),
    decreases blobs.len() - i,
{
    if i < blobs.len() {
        lemma_packet_wire_prefix(blobs, i + 1);
        lemma_packet_wire_push(blobs.take(i), blobs[i]);
        assert(blobs.take(i + 1) =~= blobs.take(i).push(blobs[i]));
    } else {
        assert(blobs.take(i) =~= blobs);
    }
}

/// A frame in front of more bytes parses as its blob in front of what the
/// other bytes parse as.
pub proof fn lemma_parse_frame(blob: BlobView, tail: Seq<u8>)
    requires
        blob.valid(),
    ensures
        parse_packet(frame(blob) + tail) == prepend(seq![blob], parse_packet(tail)),
{
    let s = frame(blob) + tail;
    lemma_blob_round_trip(blob);
    lemma_blob_len(blob);
    let n = blob.wire().len() as int;
    lemma_be16(n as u16);
    assert(s.len() == 2 + n + tail.len());
    assert(s.subrange(0, 2) =~= be16(n as u16));
    assert(from_be16(s.subrange(0, 2)) as int == n);
    assert(s.subrange(2, 2 + n) =~= blob.wire());
    assert(s.subrange(2 + n, s.len() as int) =~= tail);
}

/// A packet that was written is read back as it was.
pub proof fn lemma_packet_round_trip(blobs: Seq<BlobView>)
    requires
        forall|i: int| 0 <= i < blobs.len() ==> (#[trigger] blobs[i]).valid(),
    ensures
        parse_packet(packet_wire(blobs)) == Some(blobs),
    decreases blobs.len(),
{
    if blobs.len() == 0 {
        assert(blobs =~= Seq::<BlobView>::empty());
    } else {
        let first = blobs[0];
        let rest = blobs.subrange(1, blobs.len() as int);
        assert(first.valid());
        assert forall|i: int| 0 <= i < rest.len() implies (#[trigger] rest[i]).valid() by {
            assert(rest[i] == blobs[i + 1]);
        }
        lemma_packet_round_trip(rest);
        lemma_parse_frame(first, packet_wire(rest));
        assert(seq![first] + rest =~= blobs);
    }
}

/// A handshake that was written is read back as it was.
pub proof fn lemma_handshake_round_trip(protocol_id: u64)
    ensures
        handshake_wire(protocol_id).len() == 16,
        parse_handshake(handshake_wire(protocol_id)) == Some(protocol_id),
{
    let s = handshake_wire(protocol_id);
    lemma_be64(protocol_id);
    assert(s.subrange(0, 8) =~= handshake_magic());
    assert(s.subrange(8, 16) =~= be64(protocol_id));
}

/// No datagram is both a handshake and a packet: the magic word's first two
/// bytes announce a blob longer than a handshake.
pub proof fn lemma_handshake_is_no_packet(s: Seq<u8>)
    requires
        parse_handshake(s).is_some(),
    ensures
        parse_packet(s).is_none(),
{
    let magic = handshake_magic();
    assert(s.subrange(0, 8)[0] == magic[0]);
    assert(s.subrange(0, 8)[1] == magic[1]);
    assert(s.subrange(0, 2)[0] == s[0]);
    assert(s.subrange(0, 2)[1] == s[1]);
    assert(from_be16(s.subrange(0, 2)) == 0x4e49);
}

/// Appends the two bytes of `x`.
fn push_be16(buffer: &mut Vec<u8>, x: u16)
    ensures
        final(buffer)@ == old(buffer)@ + be16(x),
{
    buffer.push((x / 0x100) as u8);
    buffer.push((x % 0x100) as u8);
    assert(buffer@ =~= old(buffer)@ + be16(x));
}

/// Appends the four bytes of `x`.
fn push_be32(buffer: &mut Vec<u8>, x: u32)
    ensures
        final(buffer)@ == old(buffer)@ + be32(x),
{
    push_be16(buffer, (x / 0x1_0000) as u16);
    push_be16(buffer, (x % 0x1_0000) as u16);
    assert(buffer@ =~= old(buffer)@ + be32(x));
}

/// Appends the eight bytes of `x`.
fn push_be64(buffer: &mut Vec<u8>, x: u64)
    ensures
        final(buffer)@ == old(buffer)@ + be64(x),
{
    push_be32(buffer, (x / 0x1_0000_0000) as u32);
    push_be32(buffer, (x % 0x1_0000_0000) as u32);
    assert(buffer@ =~= old(buffer)@ + be64(x));
}

/// Appends `data`.
fn push_bytes(buffer: &mut Vec<u8>, data: &[u8])
    ensures
        final(buffer)@ == old(buffer)@ + data@,
{
    let mut i: usize = 0;
    while i < data.len()
        invariant
            i <= data.len(),
            buffer@ == old(buffer)@ + data@.take(i as int),
        decreases data.len() - i,
    {
        buffer.push(data[i]);
        i += 1;
        assert(buffer@ =~= old(buffer)@ + data@.take(i as int));
    }
    assert(data@.take(i as int) =~= data@);
}

/// The bytes of `bytes` from `from` on.
fn copy_from(bytes: &[u8], from: usize) -> (out: Vec<u8>)
    requires
        from <= bytes.len(),
    ensures
        out@ == bytes@.subrange(from as int, bytes.len() as int),
{
    let mut out: Vec<u8> = Vec::new();
    let mut i: usize = from;
    while i < bytes.len()
        invariant
            from <= i <= bytes.len(),
            out@ == bytes@.subrange(from as int, i as int),
        decreases bytes.len() - i,
    {
        out.push(bytes[i]);
        i += 1;
        assert(out@ =~= bytes@.subrange(from as int, i as int));
    }
    out
}

/// Reads two bytes at `at`.
fn read_be16(bytes: &[u8], at: usize) -> (x: u16)
    requires
        at + 2 <= bytes.len(),
    ensures
        x == from_be16(bytes@.subrange(at as int, at + 2)),
{
    let hi: u16 = bytes[at] as u16;
    let lo: u16 = bytes[at + 1] as u16;
    hi * 0x100 + lo
}

/// Reads four bytes at `at`.
fn read_be32(bytes: &[u8], at: usize) -> (x: u32)
    requires
        at + 4 <= bytes.len(),
    ensures
        x == from_be32(bytes@.subrange(at as int, at + 4)),
{
    let hi: u32 = read_be16(bytes, at) as u32;
    let lo: u32 = read_be16(bytes, at + 2) as u32;
    proof {
        let s = bytes@.subrange(at as int, at + 4);
        assert(s.subrange(0, 2) =~= bytes@.subrange(at as int, at + 2));
        assert(s.subrange(2, 4) =~= bytes@.subrange(at + 2, at + 4));
    }
    hi * 0x1_0000 + lo
}

/// Reads eight bytes at `at`.
fn read_be64(bytes: &[u8], at: usize) -> (x: u64)
    requires
        at + 8 <= bytes.len(),
    ensures
        x == from_be64(bytes@.subrange(at as int, at + 8)),
{
    let hi: u64 = read_be32(bytes, at) as u64;
    let lo: u64 = read_be32(bytes, at + 4) as u64;
    proof {
        let s = bytes@.subrange(at as int, at + 8);
        assert(s.subrange(0, 4) =~= bytes@.subrange(at as int, at + 4));
        assert(s.subrange(4, 8) =~= bytes@.subrange(at + 4, at + 8));
    }
    hi * 0x1_0000_0000 + lo
}

impl Fragment {
    /// The number of bytes in front of the data.
    pub const HEADER_SIZE: usize = 10;

    /// The acknowledgement that the receiver owes for this fragment, if the
    /// message is reliable.
    pub fn acknowledgement(&self) -> (ack: Option<Acknowledgement>)
        requires
            self.data.len() <= 0xffff,
        ensures
            ack == if self.send_ack {
                Some(
                    Acknowledgement {
                        fragmentation_id: self.fragmentation_id,
                        start: self.start,
                        len: self.data.len() as u16,
                    },
                )
            } else {
                None
            },
    {
        if self.send_ack {
            Some(
                Acknowledgement {
                    fragmentation_id: self.fragmentation_id,
                    start: self.start,
                    len: self.data.len() as u16,
                },
            )
        } else {
            None
        }
    }

    /// The number of bytes that [`Fragment::serialize`] writes.
    pub fn size(&self) -> (n: u16)
        requires
            self.data.len() + 10 <= 0xffff,
        ensures
            n == self@.wire().len(),
            n == 10 + self.data.len(),
    {
        (FRAGMENT_HEADER_SIZE + self.data.len()) as u16
    }

    /// Appends the fragment's bytes to `buffer`.
    pub fn serialize(&self, buffer: &mut Vec<u8>)
        requires
            self.fragmentation_id < 0x8000,
        ensures
            final(buffer)@ == old(buffer)@ + self@.wire(),
    {
        let word: u16 = if self.send_ack {
            0x8000 + self.fragmentation_id
        } else {
            self.fragmentation_id
        };
        push_be16(buffer, word);
        push_be32(buffer, self.total_size);
        push_be32(buffer, self.start);
        push_bytes(buffer, self.data.as_slice());
        assert(buffer@ =~= old(buffer)@ + self@.wire());
    }

    /// Reads a fragment from exactly `bytes`. Fails when the header is
    /// incomplete or the data does not lie within the message.
    pub fn deserialize(bytes: &[u8]) -> (r: Option<Self>)
        ensures
            match r {
                Some(fragment) => parse_fragment(bytes@) == Some(fragment@),
                None => parse_fragment(bytes@).is_none(),
            },
    {
        if bytes.len() < FRAGMENT_HEADER_SIZE {
            return None;
        }
        let word = read_be16(bytes, 0);
        let total_size = read_be32(bytes, 2);
        let start = read_be32(bytes, 6);
        let len = bytes.len() - FRAGMENT_HEADER_SIZE;
        if start > total_size || len > (total_size - start) as usize {
            return None;
        }
        let data = copy_from(bytes, FRAGMENT_HEADER_SIZE);
        Some(
            Fragment {
                send_ack: word >= 0x8000,
                fragmentation_id: word % 0x8000,
                total_size,
                start,
                data,
            },
        )
    }
}

impl Heartbeat {
    /// A heartbeat sent at `time` nanoseconds: it carries the milliseconds
    /// of `time`, modulo two to the power of 64.
    pub fn new(time: u128) -> (heartbeat: Self)
        ensures
            heartbeat@ == (time / 1_000_000) % 0x1_0000_0000_0000_0000,
    {
        Heartbeat { send_time: ((time / 1_000_000) % 0x1_0000_0000_0000_0000) as u64 }
    }

    /// The send time in nanoseconds.
    pub fn time(&self) -> (time: u128)
        ensures
            time == self@ * 1_000_000,
    {
        self.send_time as u128 * 1_000_000
    }

    /// The number of bytes of a heartbeat's body.
    pub fn size(&self) -> (n: u16)
        ensures
            n == 8,
            n == be64(self@).len(),
    {
        8
    }

    /// Appends the send time.
    fn serialize(&self, buffer: &mut Vec<u8>)
        ensures
            final(buffer)@ == old(buffer)@ + be64(self@),
    {
        push_be64(buffer, self.send_time);
    }

    /// Reads a send time from exactly eight bytes.
    fn deserialize(bytes: &[u8]) -> (r: Option<Self>)
        ensures
            match r {
                Some(heartbeat) => bytes@.len() == 8 && heartbeat@ == from_be64(bytes@),
                None => bytes@.len() != 8,
            },
    {
        if bytes.len() != 8 {
            return None;
        }
        assert(bytes@.subrange(0, 8) =~= bytes@);
        Some(Heartbeat { send_time: read_be64(bytes, 0) })
    }
}

impl Acknowledgement {
    /// The number of bytes of an acknowledgement's body.
    pub fn size(&self) -> (n: u16)
        ensures
            n == 8,
            n == BlobView::Acknowledgement(*self).body().len(),
    {
        8
    }

    /// Appends the acknowledgement's bytes.
    fn serialize(&self, buffer: &mut Vec<u8>)
        ensures
            final(buffer)@ == old(buffer)@ + BlobView::Acknowledgement(*self).body(),
    {
        push_be16(buffer, self.fragmentation_id);
        push_be32(buffer, self.start);
        push_be16(buffer, self.len);
        assert(buffer@ =~= old(buffer)@ + BlobView::Acknowledgement(*self).body());
    }

    /// Reads an acknowledgement from exactly eight bytes.
    fn deserialize(bytes: &[u8]) -> (r: Option<Self>)
        ensures
            match r {
                Some(ack) => bytes@.len() == 8 && ack == (Acknowledgement {
                    fragmentation_id: from_be16(bytes@.subrange(0, 2)),
                    start: from_be32(bytes@.subrange(2, 6)),
                    len: from_be16(bytes@.subrange(6, 8)),
                }),
                None => bytes@.len() != 8,
            },
    {
        if bytes.len() != 8 {
            return None;
        }
        Some(
            Acknowledgement {
                fragmentation_id: read_be16(bytes, 0),
                start: read_be32(bytes, 2),
                len: read_be16(bytes, 6),
            },
        )
    }
}

impl Handshake {
    /// The handshake's sixteen bytes: the magic word and the protocol identifier.
    pub fn serialize(&self) -> (bytes: Vec<u8>)
        ensures
            bytes@ == handshake_wire(self.protocol_id),
            bytes@.len() == 16,
    {
        let mut bytes: Vec<u8> = Vec::new();
        bytes.push(0x4e);
        bytes.push(0x49);
        bytes.push(0x46);
        bytes.push(0x54);
        bytes.push(0x59);
        bytes.push(0x2d);
        bytes.push(0x48);
        bytes.push(0x53);
        assert(bytes@ =~= handshake_magic());
        push_be64(&mut bytes, self.protocol_id);
        proof {
            lemma_handshake_round_trip(self.protocol_id);
        }
        bytes
    }

    /// Reads a handshake from exactly `bytes`: sixteen bytes that start with
    /// the magic word.
    pub fn deserialize_handshake(bytes: &[u8]) -> (r: Option<Self>)
        ensures
            r == match parse_handshake(bytes@) {
                Some(protocol_id) => Some(Handshake { protocol_id }),
                None => None,
            },
    {
        if bytes.len() != HANDSHAKE_SIZE {
            return None;
        }
        let matches = bytes[0] == 0x4e && bytes[1] == 0x49 && bytes[2] == 0x46 && bytes[3] == 0x54
            && bytes[4] == 0x59 && bytes[5] == 0x2d && bytes[6] == 0x48 && bytes[7] == 0x53;
        proof {
            let head = bytes@.subrange(0, 8);
            let magic = handshake_magic();
            if matches {
                assert(head =~= magic);
            } else {
                assert(head[0] == bytes[0] && head[1] == bytes[1] && head[2] == bytes[2] && head[3]
                    == bytes[3] && head[4] == bytes[4] && head[5] == bytes[5] && head[6]
                    == bytes[6] && head[7] == bytes[7]);
                assert(magic[0] == 0x4e && magic[1] == 0x49 && magic[2] == 0x46 && magic[3] == 0x54
                    && magic[4] == 0x59 && magic[5] == 0x2d && magic[6] == 0x48 && magic[7]
                    == 0x53);
            }
        }
        if !matches {
            return None;
        }
        Some(Handshake { protocol_id: read_be64(bytes, 8) })
    }
}

impl Blob {
    /// The number of bytes that [`Blob::serialize`] writes.
    pub fn size(&self) -> (n: u16)
        requires
            self@.sized(),
        ensures
            n == self@.wire().len(),
    {
        proof {
            lemma_blob_len(self@);
        }
        match self {
            Blob::Fragment(fragment) => 1 + fragment.size(),
            Blob::Heartbeat(heartbeat) => 1 + heartbeat.size(),
            Blob::HeartbeatResponse(heartbeat) => 1 + heartbeat.size(),
            Blob::Acknowledgement(ack) => 1 + ack.size(),
            Blob::Disconnect => 1,
        }
    }

    /// Appends the blob's type tag and body to `buffer`.
    pub fn serialize(&self, buffer: &mut Vec<u8>)
        requires
            self@.writable(),
        ensures
            final(buffer)@ == old(buffer)@ + self@.wire(),
    {
        match self {
            Blob::Fragment(fragment) => {
                buffer.push(TAG_FRAGMENT);
                fragment.serialize(buffer);
            },
            Blob::Heartbeat(heartbeat) => {
                buffer.push(TAG_HEARTBEAT);
                heartbeat.serialize(buffer);
            },
            Blob::HeartbeatResponse(heartbeat) => {
                buffer.push(TAG_HEARTBEAT_RESPONSE);
                heartbeat.serialize(buffer);
            },
            Blob::Acknowledgement(ack) => {
                buffer.push(TAG_ACKNOWLEDGEMENT);
                ack.serialize(buffer);
            },
            Blob::Disconnect => {
                buffer.push(TAG_DISCONNECT);
            },
        }
        assert(buffer@ =~= old(buffer)@ + self@.wire());
    }

    /// Reads a blob from exactly `bytes`. Fails on an empty input, an
    /// unknown tag, or a body that is not exactly of the tag's layout.
    pub fn deserialize(bytes: &[u8]) -> (r: Option<Self>)
        ensures
            match r {
                Some(blob) => parse_blob(bytes@) == Some(blob@),
                None => parse_blob(bytes@).is_none(),
            },
    {
        if bytes.len() == 0 {
            return None;
        }
        let tag = bytes[0];
        let body = slice_subrange(bytes, 1, bytes.len());
        if tag == TAG_FRAGMENT {
            match Fragment::deserialize(body) {
                Some(fragment) => Some(Blob::Fragment(fragment)),
                None => None,
            }
        } else if tag == TAG_HEARTBEAT {
            match Heartbeat::deserialize(body) {
                Some(heartbeat) => Some(Blob::Heartbeat(heartbeat)),
                None => None,
            }
        } else if tag == TAG_HEARTBEAT_RESPONSE {
            match Heartbeat::deserialize(body) {
                Some(heartbeat) => Some(Blob::HeartbeatResponse(heartbeat)),
                None => None,
            }
        } else if tag == TAG_ACKNOWLEDGEMENT {
            match Acknowledgement::deserialize(body) {
                Some(ack) => Some(Blob::Acknowledgement(ack)),
                None => None,
            }
        } else if tag == TAG_DISCONNECT {
            if body.len() == 0 {
                Some(Blob::Disconnect)
            } else {
                None
            }
        } else {
            None
        }
    }
}

impl Packet {
    /// Every blob's length fits the two bytes of its length prefix.
    pub open spec fn wf(&self) -> bool {
        forall|i: int| 0 <= i < self@.len() ==> (#[trigger] self@[i]).sized()
    }

    /// The number of bytes of the packet on the wire.
    pub open spec fn wire_len(&self) -> nat {
        packet_wire(self@).len()
    }

    /// A packet without blobs.
    pub fn new() -> (packet: Self)
        ensures
            packet@ == Seq::<BlobView>::empty(),
            packet.wf(),
    {
        let packet = Packet { blobs: Vec::new() };
        assert(packet@ =~= Seq::<BlobView>::empty());
        packet
    }

    /// Adds a blob at the end. The packet's size is the caller's to watch.
    pub fn push(&mut self, blob: Blob)
        requires
            old(self).wf(),
            blob@.sized(),
        ensures
            final(self).wf(),
            final(self)@ == old(self)@.push(blob@),
    {
        self.blobs.push(blob);
        assert(self@ =~= old(self)@.push(blob@));
    }

    /// The number of bytes that [`Packet::serialize`] returns.
    pub fn size(&self) -> (n: u16)
        requires
            self.wf(),
            self.wire_len() <= 0xffff,
        ensures
            n == self.wire_len(),
    {
        let mut total: usize = 0;
        let mut i: usize = 0;
        while i < self.blobs.len()
            invariant
                self.wf(),
                self.wire_len() <= 0xffff,
                i <= self.blobs.len(),
                total == packet_wire(self@.take(i as int)).len(),
            decreases self.blobs.len() - i,
        {
            proof {
                assert(self@[i as int].sized());
                lemma_packet_wire_push(self@.take(i as int), self@[i as int]);
                assert(self@.take(i + 1) =~= self@.take(i as int).push(self@[i as int]));
                lemma_packet_wire_prefix(self@, i + 1);
                lemma_blob_len(self@[i as int]);
            }
            total = total + 2 + self.blobs[i].size() as usize;
            i += 1;
        }
        assert(self@.take(i as int) =~= self@);
        total as u16
    }

    /// The size of the largest blob that still fits a packet of `max_size`
    /// bytes: what is left of `max_size` behind the packet and the two bytes
    /// of the next length prefix, or nothing.
    pub fn space_left(&self, max_size: u16) -> (n: u16)
        requires
            self.wf(),
        ensures
            n == if self.wire_len() + 2 >= max_size {
                0
            } else {
                max_size - self.wire_len() - 2
            },
    {
        let max: usize = max_size as usize;
        let mut used: usize = 2;
        if used >= max {
            return 0;
        }
        let mut i: usize = 0;
        while i < self.blobs.len()
            invariant
                self.wf(),
                max == max_size,
                i <= self.blobs.len(),
                used == 2 + packet_wire(self@.take(i as int)).len(),
                used < max,
            decreases self.blobs.len() - i,
        {
            proof {
                assert(self@[i as int].sized());
                lemma_packet_wire_push(self@.take(i as int), self@[i as int]);
                assert(self@.take(i + 1) =~= self@.take(i as int).push(self@[i as int]));
                lemma_packet_wire_prefix(self@, i + 1);
                lemma_blob_len(self@[i as int]);
            }
            used = used + 2 + self.blobs[i].size() as usize;
            if used >= max {
                return 0;
            }
            i += 1;
        }
        assert(self@.take(i as int) =~= self@);
        (max - used) as u16
    }

    /// The number of blobs in the packet.
    pub fn blob_count(&self) -> (n: usize)
        ensures
            n == self@.len(),
    {
        self.blobs.len()
    }

    /// The packet's blobs, in order.
    pub fn into_iter(self) -> (blobs: Vec<Blob>)
        ensures
            blobs_view(blobs@) == self@,
    {
        self.blobs
    }

    /// The packet's bytes on the wire.
    pub fn serialize(&self) -> (bytes: Vec<u8>)
        requires
            self.wf(),
            forall|i: int| 0 <= i < self@.len() ==> (#[trigger] self@[i]).writable(),
        ensures
            bytes@ == packet_wire(self@),
    {
        let mut bytes: Vec<u8> = Vec::new();
        let mut i: usize = 0;
        assert(self@.take(0) =~= Seq::<BlobView>::empty());
        while i < self.blobs.len()
            invariant
                self.wf(),
                forall|i: int| 0 <= i < self@.len() ==> (#[trigger] self@[i]).writable(),
                i <= self.blobs.len(),
                bytes@ == packet_wire(self@.take(i as int)),
            decreases self.blobs.len() - i,
        {
            proof {
                assert(self@[i as int].sized());
                assert(self@[i as int].writable());
                lemma_packet_wire_push(self@.take(i as int), self@[i as int]);
                assert(self@.take(i + 1) =~= self@.take(i as int).push(self@[i as int]));
            }
            let ghost before = bytes@;
            push_be16(&mut bytes, self.blobs[i].size());
            self.blobs[i].serialize(&mut bytes);
            assert(bytes@ =~= before + frame(self@[i as int]));
            i += 1;
        }
        assert(self@.take(i as int) =~= self@);
        bytes
    }

    /// Reads a packet from exactly `bytes`. Fails when a length prefix is
    /// incomplete or reaches behind the end, or when a blob does not parse.
    pub fn deserialize(bytes: &[u8]) -> (r: Option<Self>)
        ensures
            match r {
                Some(packet) => packet.wf() && parse_packet(bytes@) == Some(packet@),
                None => parse_packet(bytes@).is_none(),
            },
    {
        let mut blobs: Vec<Blob> = Vec::new();
        let mut pos: usize = 0;
        proof {
            assert(bytes@.subrange(0, bytes.len() as int) =~= bytes@);
            assert(blobs_view(blobs@) =~= Seq::<BlobView>::empty());
            lemma_prepend_empty(parse_packet(bytes@));
        }
        while pos < bytes.len()
            invariant
                pos <= bytes.len(),
                forall|i: int| 0 <= i < blobs.len() ==> (#[trigger] blobs[i])@.sized(),
                parse_packet(bytes@) == prepend(
                    blobs_view(blobs@),
                    parse_packet(bytes@.subrange(pos as int, bytes.len() as int)),
                ),
            decreases bytes.len() - pos,
        {
            let ghost rest = bytes@.subrange(pos as int, bytes.len() as int);
            if bytes.len() - pos < 2 {
                return None;
            }
            let n = read_be16(bytes, pos) as usize;
            proof {
                assert(rest.subrange(0, 2) =~= bytes@.subrange(pos as int, pos + 2));
            }
            if bytes.len() - pos - 2 < n {
                return None;
            }
            let body = slice_subrange(bytes, pos + 2, pos + 2 + n);
            proof {
                assert(rest.subrange(2, 2 + n) =~= body@);
                assert(rest.subrange(2 + n, rest.len() as int) =~= bytes@.subrange(
                    pos + 2 + n,
                    bytes.len() as int,
                ));
            }
            let blob = match Blob::deserialize(body) {
                Some(blob) => blob,
                None => { return None; },
            };
            proof {
                lemma_blob_reserialized(body@);
                lemma_blob_len(blob@);
                let tail = parse_packet(bytes@.subrange(pos + 2 + n, bytes.len() as int));
                assert(blobs_view(blobs@.push(blob)) =~= blobs_view(blobs@).push(blob@));
                lemma_prepend_push(blobs_view(blobs@), blob@, tail);
            }
            blobs.push(blob);
            pos = pos + 2 + n;
        }
        let packet = Packet { blobs };
        proof {
            assert(bytes@.subrange(pos as int, bytes.len() as int) =~= Seq::<u8>::empty());
            assert(packet@ + Seq::<BlobView>::empty() =~= packet@);
            assert forall|i: int| 0 <= i < packet@.len() implies (#[trigger] packet@[i]).sized() by {
                assert(packet.blobs[i]@.sized());
            }
        }
        Some(packet)
    }
}

/// Nothing in front of a tail is the tail.
proof fn lemma_prepend_empty(tail: Option<Seq<BlobView>>)
    ensures
        prepend(Seq::empty(), tail) == tail,
{
    if let Some(rest) = tail {
        assert(Seq::<BlobView>::empty() + rest =~= rest);
    }
}

/// A blob may move from the head of the tail to the end of the front.
proof fn lemma_prepend_push(front: Seq<BlobView>, blob: BlobView, tail: Option<Seq<BlobView>>)
    ensures
        prepend(front, prepend(seq![blob], tail)) == prepend(front.push(blob), tail),
{
    if let Some(rest) = tail {
        assert(front + (seq![blob] + rest) =~= front.push(blob) + rest);
    }
}

} // verus!
