//! Peer message headers and the magic prefix that starts every message.
use vstd::prelude::*;
use crate::bytes::{from_le32, le32, push_u32, read_u32};

verus! {

/// The bytes that start every message on the wire.
pub const MAGIC: [u8; 5] = [0x72u8, 0x75u8, 0x73u8, 0x74u8, 0x79u8];

pub open spec fn magic_seq() -> Seq<u8> {
    seq![0x72u8, 0x75u8, 0x73u8, 0x74u8, 0x79u8]
}

/// The kinds of message.
#[derive(Debug, PartialEq, Eq, Structural, Clone, Copy)]
pub enum MessageType {
    StartPeering,
    Ack,
}

#[derive(Debug, PartialEq, Eq, Structural, Clone, Copy)]
pub struct MessageHeader {
    pub message_type: MessageType,
}

impl MessageHeader {
    /// A header that asks to start peering.
    pub fn new() -> (r: Self)
        ensures
            r.message_type == MessageType::StartPeering,
    {
        MessageHeader { message_type: MessageType::StartPeering }
    }

    pub fn set_type(self, message_type: MessageType) -> (r: Self)
        ensures
            r.message_type == message_type,
    {
        MessageHeader { message_type }
    }

    pub fn is_ack(&self) -> (r: bool)
        ensures
            r == (self.message_type == MessageType::Ack),
    {
        match self.message_type {
            MessageType::Ack => true,
            _ => false,
        }
    }

    /// The header on the wire after the magic prefix: the message type's
    /// index as a little-endian `u32`.
    pub fn to_wire(&self) -> (r: Vec<u8>)
        ensures
            r@ == le32(if self.message_type == MessageType::Ack { 1u32 } else { 0u32 }),
    {
        let index: u32 = match self.message_type {
            MessageType::StartPeering => 0,
            MessageType::Ack => 1,
        };
        let mut out: Vec<u8> = Vec::new();
        push_u32(&mut out, index);
        assert(out@ =~= le32(index));
        out
    }

    /// The header that 4 bytes on the wire stand for, if any.
    pub fn from_wire(b: &[u8]) -> (r: Option<Self>)
        ensures
            b@.len() == 4 && from_le32(b@) == 0 ==> r == Some(MessageHeader { message_type: MessageType::StartPeering }),
            b@.len() == 4 && from_le32(b@) == 1 ==> r == Some(MessageHeader { message_type: MessageType::Ack }),
            b@.len() != 4 || from_le32(b@) > 1 ==> r is None,
    {
        if b.len() != 4 {
            return None;
        }
        let index = match read_u32(b, 0) {
            Some((v, _)) => v,
            None => return None,
        };
        assert(b@.subrange(0, 4) =~= b@);
        if index == 0 {
            Some(MessageHeader { message_type: MessageType::StartPeering })
        } else if index == 1 {
            Some(MessageHeader { message_type: MessageType::Ack })
        } else {
            None
        }
    }
}

/// One step of the search for the magic prefix in a byte stream: given how
/// many of its bytes have just been seen in a row and the next byte, how many
/// are seen after it. A mismatch starts the search over; the prefix is found
/// when the result is its length.
pub fn magic_step(matched: usize, byte: u8) -> (r: usize)
    requires
        matched < 5,
    ensures
        r == (if byte == magic_seq()[matched as int] { matched + 1 } else { 0 }),
{
    let m = MAGIC;
    assert(m@ == magic_seq());
    if byte == m[matched] {
        matched + 1
    } else {
        0
    }
}

} // verus!
