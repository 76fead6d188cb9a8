//! Framing of typed messages: the two bytes of a message's kind, most
//! significant first, in front of its encoded value. To encode and decode
//! the values is the caller's business.

use crate::packet::{be16, from_be16, lemma_be16};
use vstd::prelude::*;
use vstd::slice::slice_subrange;

verus! {

/// What a received message is to the reader of one kind of message.
pub enum Framed<'a> {
    /// The message is too short to name a kind.
    Malformed,
    /// The message is of another kind.
    Other,
    /// The message is of the reader's kind, and this is its encoded value.
    Payload(&'a [u8]),
}

/// The bytes of a typed message.
pub open spec fn typed_wire(message_id: u16, payload: Seq<u8>) -> Seq<u8> {
    be16(message_id) + payload
}

/// The kind that `bytes` name, if they are long enough to name one.
pub open spec fn typed_kind(bytes: Seq<u8>) -> Option<u16> {
    if bytes.len() < 2 {
        None
    } else {
        Some(from_be16(bytes.subrange(0, 2)))
    }
}

/// The encoded value behind the kind.
pub open spec fn typed_payload(bytes: Seq<u8>) -> Seq<u8> {
    bytes.subrange(2, bytes.len() as int)
}

/// A typed message names the kind it was framed with, in front of its payload.
pub proof fn lemma_typed_round_trip(message_id: u16, payload: Seq<u8>)
    ensures
        typed_kind(typed_wire(message_id, payload)) == Some(message_id),
        typed_payload(typed_wire(message_id, payload)) == payload,
{
    let bytes = typed_wire(message_id, payload);
    lemma_be16(message_id);
    assert(bytes.subrange(0, 2) =~= be16(message_id));
    assert(bytes.subrange(2, bytes.len() as int) =~= payload);
}

/// The bytes of a typed message: the kind in front of the encoded value.
pub fn frame(message_id: u16, payload: &[u8]) -> (bytes: Vec<u8>)
    ensures
        bytes@ == typed_wire(message_id, payload@),
{
    let mut bytes: Vec<u8> = Vec::new();
    bytes.push((message_id / 0x100) as u8);
    bytes.push((message_id % 0x100) as u8);
    assert(bytes@ =~= be16(message_id));
    let mut i: usize = 0;
    while i < payload.len()
        invariant
            i <= payload.len(),
            bytes@ == be16(message_id) + payload@.take(i as int),
        decreases payload.len() - i,
    {
        bytes.push(payload[i]);
        i += 1;
        assert(bytes@ =~= be16(message_id) + payload@.take(i as int));
    }
    assert(payload@.take(i as int) =~= payload@);
    bytes
}

/// Reads a received message as the reader of messages of kind `message_id`.
pub fn unframe<'a>(bytes: &'a [u8], message_id: u16) -> (framed: Framed<'a>)
    ensures
        match framed {
            Framed::Malformed => typed_kind(bytes@).is_none(),
            Framed::Other => typed_kind(bytes@).is_some() && typed_kind(bytes@) != Some(message_id),
            Framed::Payload(payload) => typed_kind(bytes@) == Some(message_id) && payload@
                == typed_payload(bytes@),
        },
{
    if bytes.len() < 2 {
        return Framed::Malformed;
    }
    let kind: u16 = bytes[0] as u16 * 0x100 + bytes[1] as u16;
    if kind != message_id {
        return Framed::Other;
    }
    Framed::Payload(slice_subrange(bytes, 2, bytes.len()))
}

} // verus!
