use chat::packet::{decode_packet, encode_packet, is_well_sized, Message, MyError, Packet};

fn encoded(packet: &Packet) -> Vec<u8> {
    let mut buf = [0xAAu8; 1024];
    let n: usize = encode_packet(packet, &mut buf);
    buf[..n].to_vec()
}

#[test]
fn user_list_is_three_bytes() {
    assert_eq!(encoded(&Packet::UserList), vec![0x00, 0x01, 0x00]);
}

#[test]
fn say_layout_is_big_endian() {
    let packet = Packet::Say(Message { from: 0x0102, to: 0xA0B0, content: b"hi".to_vec() });
    assert_eq!(
        encoded(&packet),
        vec![0x00, 0x07, 0x01, 0x01, 0x02, 0xA0, 0xB0, b'h', b'i']
    );
}

#[test]
fn encode_returns_total_length() {
    let packet = Packet::Say(Message { from: 1, to: 2, content: vec![9u8; 300] });
    let mut buf = [0u8; 1024];
    let n: usize = encode_packet(&packet, &mut buf);
    assert_eq!(n, 307);
    // 305 = 0x0131 bytes follow the length field
    assert_eq!(&buf[..2], &[0x01, 0x31]);
}

#[test]
fn encode_leaves_rest_of_buffer_alone() {
    let packet = Packet::Say(Message { from: 1, to: 2, content: b"abc".to_vec() });
    let mut buf = [0x55u8; 32];
    let n: usize = encode_packet(&packet, &mut buf);
    assert_eq!(n, 10);
    assert!(buf[n..].iter().all(|b| *b == 0x55));
}

#[test]
fn encode_into_exact_buffer() {
    let packet = Packet::Say(Message { from: 7, to: 8, content: vec![1, 2, 3] });
    let mut buf = [0u8; 10];
    let n: usize = encode_packet(&packet, &mut buf);
    assert_eq!(n, 10);
    assert_eq!(buf, [0, 8, 1, 0, 7, 0, 8, 1, 2, 3]);
}

#[test]
fn decode_user_list() {
    assert_eq!(decode_packet(&[0, 1, 0]), Ok(Packet::UserList));
}

#[test]
fn decode_say() {
    let frame = [0x00, 0x08, 0x01, 0xFF, 0xFE, 0x00, 0x09, 1, 2, 3];
    assert_eq!(
        decode_packet(&frame),
        Ok(Packet::Say(Message { from: 0xFFFE, to: 9, content: vec![1, 2, 3] }))
    );
}

#[test]
fn decode_say_without_content() {
    let frame = [0x00, 0x05, 0x01, 0x00, 0x01, 0x00, 0x02];
    assert_eq!(
        decode_packet(&frame),
        Ok(Packet::Say(Message { from: 1, to: 2, content: vec![] }))
    );
}

#[test]
fn decode_unknown_type_fails() {
    assert_eq!(decode_packet(&[0, 1, 2]), Err(MyError::UnknownPacketType));
    assert_eq!(decode_packet(&[0, 1, 255]), Err(MyError::UnknownPacketType));
    assert_eq!(
        decode_packet(&[0, 6, 7, 0, 1, 0, 2, b'x']),
        Err(MyError::UnknownPacketType)
    );
}

#[test]
fn decode_ignores_the_length_field() {
    let frame = [0xFF, 0xFF, 0x01, 0x00, 0x01, 0x00, 0x02, b'z'];
    assert_eq!(
        decode_packet(&frame),
        Ok(Packet::Say(Message { from: 1, to: 2, content: vec![b'z'] }))
    );
}

#[test]
fn round_trip_of_say() {
    for len in [0usize, 1, 2, 255, 256, 1016, 1017] {
        let content: Vec<u8> = (0..len).map(|i| (i % 251) as u8).collect();
        let message = Message { from: 513, to: 65535, content };
        let frame = encoded(&Packet::Say(message.clone()));
        assert_eq!(frame.len(), len + 7);
        assert_eq!(decode_packet(&frame), Ok(Packet::Say(message)));
    }
}

#[test]
fn round_trip_of_user_list() {
    let frame = encoded(&Packet::UserList);
    assert_eq!(decode_packet(&frame), Ok(Packet::UserList));
}

#[test]
fn round_trip_keeps_every_identity_byte() {
    for id in [0u16, 1, 255, 256, 257, 0x1234, 0xFF00, 0x00FF, 65535] {
        let message = Message { from: id, to: !id, content: vec![] };
        let frame = encoded(&Packet::Say(message.clone()));
        assert_eq!(frame[3], (id >> 8) as u8);
        assert_eq!(frame[4], (id & 0xFF) as u8);
        assert_eq!(decode_packet(&frame), Ok(Packet::Say(message)));
    }
}

#[test]
fn fits_tells_when_encode_can_be_called() {
    let small = Packet::Say(Message { from: 0, to: 0, content: vec![0u8; 1017] });
    let large = Packet::Say(Message { from: 0, to: 0, content: vec![0u8; 1018] });
    assert!(small.fits(1024));
    assert!(!large.fits(1024));
    assert!(large.fits(1025));
    assert!(Packet::UserList.fits(3));
    assert!(!Packet::UserList.fits(2));
    let huge = Packet::Say(Message { from: 0, to: 0, content: vec![0u8; 65531] });
    assert!(!huge.fits(100_000));
    let limit = Packet::Say(Message { from: 0, to: 0, content: vec![0u8; 65530] });
    assert!(limit.fits(65537));
    assert!(!limit.fits(65536));
}

#[test]
fn longest_encodable_say() {
    let content = vec![3u8; 65530];
    let packet = Packet::Say(Message { from: 1, to: 1, content: content.clone() });
    let mut buf = vec![0u8; 65537];
    let n: usize = encode_packet(&packet, &mut buf);
    assert_eq!(n, 65537);
    assert_eq!(&buf[..3], &[0xFF, 0xFF, 0x01]);
    assert_eq!(decode_packet(&buf), Ok(Packet::Say(Message { from: 1, to: 1, content })));
}

#[test]
fn well_sized_frames() {
    assert!(!is_well_sized(&[]));
    assert!(!is_well_sized(&[0, 0]));
    assert!(is_well_sized(&[0, 1, 0]));
    assert!(is_well_sized(&[0, 1, 9]));
    assert!(!is_well_sized(&[0, 1, 1]));
    assert!(!is_well_sized(&[0, 4, 1, 0, 0, 0]));
    assert!(is_well_sized(&[0, 5, 1, 0, 0, 0, 0]));
}

#[test]
fn error_descriptions() {
    assert_eq!(MyError::UnknownPacketType.description(), "unknown packet type");
    assert_eq!(MyError::PacketTooLong.description(), "packet too long");
}
