use chat::frame::{frame_len, receive_packet, ReceiveError, MAX_CONTENT_LEN, MAX_FRAME_LEN};
use chat::packet::{encode_packet, Message, MyError, Packet};

fn frame_of(packet: &Packet) -> Vec<u8> {
    let mut buf = [0u8; 1024];
    let n: usize = encode_packet(packet, &mut buf);
    buf[..n].to_vec()
}

#[test]
fn limits() {
    assert_eq!(MAX_FRAME_LEN, 1024);
    assert_eq!(MAX_CONTENT_LEN, 1017);
}

#[test]
fn frame_len_adds_the_length_field() {
    assert_eq!(frame_len(&[0x00, 0x01]), Ok(3));
    assert_eq!(frame_len(&[0x01, 0x00]), Ok(258));
    assert_eq!(frame_len(&[0x00, 0x00]), Ok(2));
}

#[test]
fn frame_len_at_the_limit() {
    // 1022 = 0x03FE
    assert_eq!(frame_len(&[0x03, 0xFE]), Ok(1024));
    assert_eq!(frame_len(&[0x03, 0xFF]), Err(MyError::PacketTooLong));
}

#[test]
fn frame_len_does_not_wrap() {
    assert_eq!(frame_len(&[0xFF, 0xFE]), Err(MyError::PacketTooLong));
    assert_eq!(frame_len(&[0xFF, 0xFF]), Err(MyError::PacketTooLong));
}

#[test]
fn frame_len_reads_only_the_first_two_bytes() {
    assert_eq!(frame_len(&[0x00, 0x07, 0x01, 0xFF, 0xFF]), Ok(9));
}

#[test]
fn receive_too_long_takes_only_the_length_field() {
    let mut stream = vec![0x03u8, 0xFF, 0x01];
    stream.extend(vec![0u8; 2000]);
    assert_eq!(
        receive_packet(&stream),
        (2, Err(ReceiveError::Protocol(MyError::PacketTooLong)))
    );
    assert_eq!(
        receive_packet(&[0xFF, 0xFF]),
        (2, Err(ReceiveError::Protocol(MyError::PacketTooLong)))
    );
}

#[test]
fn receive_unknown_type() {
    assert_eq!(
        receive_packet(&[0x00, 0x01, 0x02]),
        (3, Err(ReceiveError::Protocol(MyError::UnknownPacketType)))
    );
    assert_eq!(
        receive_packet(&[0x00, 0x03, 0x09, 0x00, 0x00, 0x77]),
        (5, Err(ReceiveError::Protocol(MyError::UnknownPacketType)))
    );
}

#[test]
fn receive_short_header() {
    assert_eq!(receive_packet(&[]), (0, Err(ReceiveError::ShortRead)));
    assert_eq!(receive_packet(&[0x00]), (1, Err(ReceiveError::ShortRead)));
}

#[test]
fn receive_short_body() {
    assert_eq!(
        receive_packet(&[0x00, 0x07, 0x01, 0x00]),
        (4, Err(ReceiveError::ShortRead))
    );
    assert_eq!(receive_packet(&[0x00, 0x01]), (2, Err(ReceiveError::ShortRead)));
}

#[test]
fn receive_frame_too_short_for_its_type() {
    assert_eq!(receive_packet(&[0x00, 0x00]), (2, Err(ReceiveError::PacketTooShort)));
    assert_eq!(receive_packet(&[0x00, 0x00, 0x00]), (2, Err(ReceiveError::PacketTooShort)));
    assert_eq!(receive_packet(&[0x00, 0x01, 0x01]), (3, Err(ReceiveError::PacketTooShort)));
    assert_eq!(
        receive_packet(&[0x00, 0x04, 0x01, 0x00, 0x01, 0x00, 0x02]),
        (6, Err(ReceiveError::PacketTooShort))
    );
}

#[test]
fn receive_shortest_say() {
    assert_eq!(
        receive_packet(&[0x00, 0x05, 0x01, 0x00, 0x01, 0x00, 0x02]),
        (7, Ok(Packet::Say(Message { from: 1, to: 2, content: vec![] })))
    );
}

#[test]
fn receive_user_list() {
    assert_eq!(receive_packet(&[0x00, 0x01, 0x00]), (3, Ok(Packet::UserList)));
}

#[test]
fn receive_takes_one_frame_and_leaves_the_next() {
    let first = Packet::Say(Message { from: 3, to: 4, content: b"one".to_vec() });
    let second = Packet::Say(Message { from: 5, to: 6, content: b"second".to_vec() });
    let mut stream = frame_of(&first);
    stream.extend(frame_of(&second));
    let (taken, packet) = receive_packet(&stream);
    assert_eq!(taken, 10);
    assert_eq!(packet, Ok(first));
    let (taken, packet) = receive_packet(&stream[10..]);
    assert_eq!(taken, 13);
    assert_eq!(packet, Ok(second));
    assert_eq!(receive_packet(&stream[23..]), (0, Err(ReceiveError::ShortRead)));
}

#[test]
fn receive_round_trip_up_to_the_longest_content() {
    for len in [0usize, 1, 100, 1016, 1017] {
        let message = Message { from: 9, to: 0, content: vec![b'x'; len] };
        let mut stream = frame_of(&Packet::Say(message.clone()));
        stream.extend([1u8, 2, 3]);
        assert_eq!(receive_packet(&stream), (len + 7, Ok(Packet::Say(message))));
    }
}

#[test]
fn receive_refuses_content_beyond_the_limit() {
    let packet = Packet::Say(Message { from: 9, to: 0, content: vec![b'x'; 1018] });
    let mut buf = vec![0u8; 2048];
    let n: usize = encode_packet(&packet, &mut buf);
    assert_eq!(n, 1025);
    assert_eq!(
        receive_packet(&buf[..n]),
        (2, Err(ReceiveError::Protocol(MyError::PacketTooLong)))
    );
}
