//! Packets and their binary encoding.

use crate::wire::{be16, be16_value, read_u16, write_u16};
use vstd::prelude::*;
use vstd::slice::slice_to_vec;

verus! {

/// A chat message.
#[derive(Debug, Clone, PartialEq, Eq)]
pub struct Message {
    /// Identity of the sender, as the server assigned it.
    pub from: u16,
    /// Identity of the addressee; carried on the wire, not used for routing.
    pub to: u16,
    /// The payload.
    pub content: Vec<u8>,
}

/// What a `Message` is, mathematically.
pub struct MessageView {
    pub from: u16,
    pub to: u16,
    pub content: Seq<u8>,
}

impl View for Message {
    type V = MessageView;

    open spec fn view(&self) -> MessageView {
        MessageView { from: self.from, to: self.to, content: self.content@ }
    }
}

/// A unit of the protocol.
#[derive(Debug, Clone, PartialEq, Eq)]
pub enum Packet {
    /// Reserved for a directory listing; carries nothing.
    UserList,
    /// A chat message.
    Say(Message),
}

/// What a `Packet` is, mathematically.
pub enum PacketView {
    UserList,
    Say(MessageView),
}

impl View for Packet {
    type V = PacketView;

    open spec fn view(&self) -> PacketView {
        match self {
            Packet::UserList => PacketView::UserList,
            Packet::Say(m) => PacketView::Say(m@),
        }
    }
}

/// Protocol violations.
#[derive(Debug, Clone, Copy, PartialEq, Eq, Structural)]
pub enum MyError {
    /// The type tag of a frame is not one this protocol knows.
    UnknownPacketType,
    /// A frame declares more bytes than the transport accepts.
    PacketTooLong,
}

/// Type tag of `Packet::UserList`.
pub const TYPE_USER_LIST: u8 = 0;

/// Type tag of `Packet::Say`.
pub const TYPE_SAY: u8 = 1;

/// Bytes of a frame before the payload of a `Say`: length, tag, `from`, `to`.
pub const SAY_HEADER_LEN: usize = 7;

impl PacketView {
    /// Number of bytes after the length field.
    pub open spec fn payload_len(self) -> nat {
        match self {
            PacketView::UserList => 1,
            PacketView::Say(m) => 5 + m.content.len(),
        }
    }

    /// Number of bytes of the whole frame.
    pub open spec fn frame_len(self) -> nat {
        self.payload_len() + 2
    }

    /// Whether the length field can hold the payload's length.
    pub open spec fn encodable(self) -> bool {
        self.payload_len() <= u16::MAX
    }

    /// The frame that stands for this packet on the wire.
    pub open spec fn encoding(self) -> Seq<u8>
        recommends
            self.encodable(),
    {
        match self {
            PacketView::UserList => be16(1) + seq![TYPE_USER_LIST],
            PacketView::Say(m) => be16((5 + m.content.len()) as u16) + seq![TYPE_SAY] + be16(m.from)
                + be16(m.to) + m.content,
        }
    }
}

/// Whether `frame` is long enough for the fields that its type tag announces.
pub open spec fn well_sized(frame: Seq<u8>) -> bool {
    frame.len() >= 3 && (frame[2] == TYPE_SAY ==> frame.len() >= SAY_HEADER_LEN)
}

/// The packet that a well-sized frame stands for.
pub open spec fn decoding(frame: Seq<u8>) -> Result<PacketView, MyError>
    recommends
        well_sized(frame),
{
    if frame[2] == TYPE_USER_LIST {
        Ok(PacketView::UserList)
    } else if frame[2] == TYPE_SAY {
        Ok(
            PacketView::Say(
                MessageView {
                    from: be16_value(frame[3], frame[4]),
                    to: be16_value(frame[5], frame[6]),
                    content: frame.skip(7),
                },
            ),
        )
    } else {
        Err(MyError::UnknownPacketType)
    }
}

/// Whether `buf` is long enough for the fields that its type tag announces,
/// so that `decode_packet` can be called on it.
pub fn is_well_sized(buf: &[u8]) -> (r: bool)
    ensures
        r == well_sized(buf@),
{
    buf.len() >= 3 && (buf[2] != TYPE_SAY || buf.len() >= SAY_HEADER_LEN)
}

/// Decodes a frame that was delimited by its length field. The length field
/// itself is not looked at.
pub fn decode_packet(buf: &[u8]) -> (r: Result<Packet, MyError>)
    requires
        well_sized(buf@),
    ensures
        r is Ok <==> buf@[2] == TYPE_USER_LIST || buf@[2] == TYPE_SAY,
        match r {
            Ok(p) => decoding(buf@) == Ok::<PacketView, MyError>(p@),
            Err(e) => e == MyError::UnknownPacketType && decoding(buf@) == Err::<
                PacketView,
                MyError,
            >(e),
        },
{
    let packet_type = buf[2];
    if packet_type == TYPE_USER_LIST {
        Ok(Packet::UserList)
    } else if packet_type == TYPE_SAY {
        let from = read_u16(&buf[3..5]);
        let to = read_u16(&buf[5..7]);
        let content = slice_to_vec(&buf[7..buf.len()]);
        Ok(Packet::Say(Message { from, to, content }))
    } else {
        Err(MyError::UnknownPacketType)
    }
}

/// Encodes `packet` at the start of `buf` and returns the frame's length.
pub fn encode_packet(packet: &Packet, buf: &mut [u8]) -> (n: usize)
    requires
        packet@.encodable(),
        packet@.frame_len() <= old(buf)@.len(),
    ensures
        n == packet@.frame_len(),
        final(buf)@.len() == old(buf)@.len(),
        final(buf)@.take(n as int) == packet@.encoding(),
        final(buf)@.skip(n as int) == old(buf)@.skip(n as int),
{
    let ghost before = buf@;
    let total = buf.len();
    let mut length: u16 = 1;
    let mut packet_type: u8 = TYPE_USER_LIST;
    match packet {
        Packet::UserList => {},
        Packet::Say(message) => {
            let len = message.content.len();
            {
                let (_, tail) = buf.split_at_mut(3);
                write_u16(tail, message.from);
            }
            {
                let (_, tail) = buf.split_at_mut(5);
                write_u16(tail, message.to);
            }
            let mut i: usize = 0;
            while i < len
                invariant
                    len == message.content@.len(),
                    len + 7 <= total,
                    buf@.len() == total,
                    before.len() == total,
                    i <= len,
                    buf@.subrange(3, 7) == be16(message.from) + be16(message.to),
                    buf@.subrange(7, 7 + i) == message.content@.take(i as int),
                    buf@.skip(7 + len) == before.skip(7 + len),
                decreases len - i,
            {
                let ghost prev = buf@;
                buf[i + 7] = message.content[i];
                i += 1;
                assert(buf@.subrange(3, 7) =~= prev.subrange(3, 7));
                assert(buf@.subrange(7, 7 + i) =~= prev.subrange(7, 7 + i - 1).push(
                    message.content@[i - 1],
                ));
                assert(message.content@.take(i as int) =~= message.content@.take(i - 1).push(
                    message.content@[i - 1],
                ));
                assert(buf@.skip(7 + len) =~= prev.skip(7 + len));
            }
            length = (len + 5) as u16;
            packet_type = TYPE_SAY;
            assert(message.content@.take(len as int) =~= message.content@);
        },
    }
    let ghost filled = buf@;
    {
        write_u16(buf, length);
    }
    buf[2] = packet_type;
    let n = length as usize + 2;
    proof {
        assert(buf@.len() == total);
        assert(buf@.skip(n as int) =~= before.skip(n as int)) by {
            assert(forall|k: int| n <= k < total ==> buf@[k] == filled[k]);
            assert(forall|k: int|
                n <= k < total ==> filled[k] == #[trigger] filled.skip(n as int)[k - n]);
        }
        match packet {
            Packet::UserList => {
                assert(buf@.take(n as int) =~= packet@.encoding());
            },
            Packet::Say(message) => {
                let c = message.content@;
                let head = be16(message.from) + be16(message.to);
                let e = packet@.encoding();
                assert(filled.subrange(3, 7) == head);
                assert(filled.subrange(7, n as int) == c);
                assert forall|k: int| 0 <= k < n implies buf@[k] == e[k] by {
                    if 3 <= k < 7 {
                        assert(filled[k] == filled.subrange(3, 7)[k - 3]);
                        assert(head[k - 3] == e[k]);
                    } else if k >= 7 {
                        assert(filled[k] == filled.subrange(7, n as int)[k - 7]);
                        assert(c[k - 7] == e[k]);
                    }
                }
                assert(buf@.take(n as int) =~= packet@.encoding());
            },
        }
    }
    n
}

impl Message {
    /// Whether `encode_packet` can write a `Say` of this message into a
    /// buffer of `room` bytes.
    pub fn fits(&self, room: usize) -> (r: bool)
        ensures
            r == (PacketView::Say(self@).encodable() && PacketView::Say(self@).frame_len()
                <= room),
    {
        let len = self.content.len();
        len <= 65530 && room >= SAY_HEADER_LEN && len <= room - SAY_HEADER_LEN
    }
}

impl Packet {
    /// Whether `encode_packet` can write this packet into a buffer of `room`
    /// bytes.
    pub fn fits(&self, room: usize) -> (r: bool)
        ensures
            r == (self@.encodable() && self@.frame_len() <= room),
    {
        match self {
            Packet::UserList => room >= 3,
            Packet::Say(message) => message.fits(room),
        }
    }
}

impl MyError {
    /// A short description of the violation, for a log or a terminal.
    pub fn description(&self) -> (r: &'static str)
        ensures
            *self == MyError::UnknownPacketType ==> r@ == "unknown packet type"@,
            *self == MyError::PacketTooLong ==> r@ == "packet too long"@,
    {
        match self {
            MyError::UnknownPacketType => "unknown packet type",
            MyError::PacketTooLong => "packet too long",
        }
    }
}

/// A frame made by encoding is well sized, and as long as `frame_len` says.
pub proof fn lemma_encoding_well_sized(p: PacketView)
    ensures
        p.encoding().len() == p.frame_len(),
        well_sized(p.encoding()),
{
}

/// Decoding the encoding of a packet gives the packet back: the sender, the
/// addressee and every byte of the payload.
pub proof fn lemma_round_trip(p: PacketView)
    requires
        p.encodable(),
    ensures
        decoding(p.encoding()) == Ok::<PacketView, MyError>(p),
{
    match p {
        PacketView::UserList => {},
        PacketView::Say(m) => {
            crate::wire::lemma_be16_round_trip(m.from);
            crate::wire::lemma_be16_round_trip(m.to);
            assert(p.encoding().skip(7) =~= m.content);
        },
    }
}

/// A well-sized frame whose length field counts the bytes that follow it is
/// the encoding of the packet that it decodes to.
pub proof fn lemma_decoding_is_inverse(frame: Seq<u8>)
    requires
        well_sized(frame),
        frame.len() <= u16::MAX + 2,
        be16_value(frame[0], frame[1]) == frame.len() - 2,
        decoding(frame) is Ok,
        frame[2] == TYPE_USER_LIST ==> frame.len() == 3,
    ensures
        decoding(frame).unwrap().encoding() == frame,
{
    crate::wire::lemma_be16_value_round_trip(frame[0], frame[1]);
    if frame[2] == TYPE_SAY {
        crate::wire::lemma_be16_value_round_trip(frame[3], frame[4]);
        crate::wire::lemma_be16_value_round_trip(frame[5], frame[6]);
    }
    assert(decoding(frame).unwrap().encoding() =~= frame);
}

} // verus!
