//! The framing rule of the transport: a two-byte length, then that many bytes.

use crate::packet::{
    decode_packet, decoding, is_well_sized, well_sized, MyError, Packet, PacketView,
};
use crate::wire::{be16_value, read_u16};
use vstd::prelude::*;

verus! {

/// The longest frame that the transport accepts, length field included.
pub const MAX_FRAME_LEN: usize = 1024;

/// Bytes of the length field.
pub const LENGTH_FIELD_LEN: usize = 2;

/// The longest payload of a `Say` that fits into a frame.
pub const MAX_CONTENT_LEN: usize = 1017;

/// Why no packet came out of a stream.
#[derive(Debug, Clone, Copy, PartialEq, Eq, Structural)]
pub enum ReceiveError {
    /// The peer broke the protocol.
    Protocol(MyError),
    /// The stream ended before the bytes that were asked for had arrived.
    ShortRead,
    /// The frame is too short for the fields that its type tag announces, or
    /// for a type tag.
    PacketTooShort,
}

/// Length of the whole frame that a length field announces.
pub open spec fn declared_frame_len(header: Seq<u8>) -> int
    recommends
        header.len() >= 2,
{
    be16_value(header[0], header[1]) + 2
}

/// What one receive makes of the bytes that a stream still holds: how many of
/// them it takes from the stream, and the packet or the failure.
pub open spec fn reception(stream: Seq<u8>) -> (nat, Result<PacketView, ReceiveError>) {
    if stream.len() < 2 {
        (stream.len(), Err(ReceiveError::ShortRead))
    } else if declared_frame_len(stream) > MAX_FRAME_LEN {
        (2, Err(ReceiveError::Protocol(MyError::PacketTooLong)))
    } else if stream.len() < declared_frame_len(stream) {
        (stream.len(), Err(ReceiveError::ShortRead))
    } else {
        (declared_frame_len(stream) as nat, frame_packet(stream.take(declared_frame_len(stream))))
    }
}

/// What a receive makes of a frame that it has read in full.
pub open spec fn frame_packet(frame: Seq<u8>) -> Result<PacketView, ReceiveError> {
    if !well_sized(frame) {
        Err(ReceiveError::PacketTooShort)
    } else {
        match decoding(frame) {
            Ok(p) => Ok(p),
            Err(e) => Err(ReceiveError::Protocol(e)),
        }
    }
}

/// Reads a length field and gives the length of the whole frame, or refuses a
/// frame that would be longer than `MAX_FRAME_LEN`.
pub fn frame_len(header: &[u8]) -> (r: Result<usize, MyError>)
    requires
        header@.len() >= 2,
    ensures
        declared_frame_len(header@) <= MAX_FRAME_LEN ==> r == Ok::<usize, MyError>(
            declared_frame_len(header@) as usize,
        ),
        declared_frame_len(header@) > MAX_FRAME_LEN ==> r == Err::<usize, MyError>(
            MyError::PacketTooLong,
        ),
{
    let packet_length = read_u16(header);
    if packet_length as usize + LENGTH_FIELD_LEN > MAX_FRAME_LEN {
        Err(MyError::PacketTooLong)
    } else {
        Ok(packet_length as usize + LENGTH_FIELD_LEN)
    }
}

/// Receives one packet from the bytes that a stream still holds. Returns the
/// number of bytes taken from the stream, and the packet or the failure.
pub fn receive_packet(stream: &[u8]) -> (r: (usize, Result<Packet, ReceiveError>))
    ensures
        r.0 == reception(stream@).0,
        match r.1 {
            Ok(p) => reception(stream@).1 == Ok::<PacketView, ReceiveError>(p@),
            Err(e) => reception(stream@).1 == Err::<PacketView, ReceiveError>(e),
        },
{
    if stream.len() < LENGTH_FIELD_LEN {
        return (stream.len(), Err(ReceiveError::ShortRead));
    }
    let total = match frame_len(stream) {
        Ok(total) => total,
        Err(e) => {
            return (LENGTH_FIELD_LEN, Err(ReceiveError::Protocol(e)));
        },
    };
    if stream.len() < total {
        return (stream.len(), Err(ReceiveError::ShortRead));
    }
    let frame = &stream[0..total];
    if !is_well_sized(frame) {
        return (total, Err(ReceiveError::PacketTooShort));
    }
    match decode_packet(frame) {
        Ok(p) => (total, Ok(p)),
        Err(e) => (total, Err(ReceiveError::Protocol(e))),
    }
}

/// A frame that declares more than `MAX_FRAME_LEN` bytes is refused as too
/// long after its length field alone was taken from the stream.
pub proof fn lemma_oversized_frame_refused(stream: Seq<u8>)
    requires
        stream.len() >= 2,
        declared_frame_len(stream) > MAX_FRAME_LEN,
    ensures
        reception(stream) == (
            2nat,
            Err::<PacketView, ReceiveError>(ReceiveError::Protocol(MyError::PacketTooLong)),
        ),
{
}

/// A `Say` whose payload is at most `MAX_CONTENT_LEN` bytes long comes out of
/// a receive as it went into the encoding, whatever follows it in the stream.
pub proof fn lemma_say_round_trip(m: crate::packet::MessageView, rest: Seq<u8>)
    requires
        m.content.len() <= MAX_CONTENT_LEN,
    ensures
        reception(PacketView::Say(m).encoding() + rest) == (
            PacketView::Say(m).frame_len(),
            Ok::<PacketView, ReceiveError>(PacketView::Say(m)),
        ),
{
    let p = PacketView::Say(m);
    let frame = p.encoding();
    let stream = frame + rest;
    crate::packet::lemma_round_trip(p);
    crate::packet::lemma_encoding_well_sized(p);
    crate::wire::lemma_be16_round_trip((5 + m.content.len()) as u16);
    assert(declared_frame_len(stream) == frame.len());
    assert(stream.take(frame.len() as int) =~= frame);
}

/// The reserved packet comes out of a receive as it went into the encoding.
pub proof fn lemma_user_list_round_trip(rest: Seq<u8>)
    ensures
        reception(PacketView::UserList.encoding() + rest) == (
            3nat,
            Ok::<PacketView, ReceiveError>(PacketView::UserList),
        ),
{
    let frame = PacketView::UserList.encoding();
    let stream = frame + rest;
    crate::packet::lemma_round_trip(PacketView::UserList);
    assert(declared_frame_len(stream) == 3);
    assert(stream.take(3) =~= frame);
}

} // verus!
