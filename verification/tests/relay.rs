use chat::client::compose;
use chat::frame::receive_packet;
use chat::packet::{decode_packet, encode_packet, Message, Packet};
use chat::registry::Registry;
use chat::server::{stamp, Server};

fn identities<C>(sessions: &[(u16, &C)]) -> Vec<u16> {
    let mut ids: Vec<u16> = sessions.iter().map(|s| s.0).collect();
    ids.sort();
    ids
}

#[test]
fn registry_insert_remove() {
    let mut registry: Registry<&str> = Registry::new();
    assert_eq!(registry.len(), 0);
    registry.insert(1, "one");
    registry.insert(2, "two");
    assert_eq!(registry.len(), 2);
    assert!(registry.contains(1));
    assert!(registry.contains(2));
    assert!(!registry.contains(3));
    assert_eq!(registry.remove(1), Some("one"));
    assert!(!registry.contains(1));
    assert_eq!(registry.len(), 1);
}

#[test]
fn registry_remove_is_idempotent() {
    let mut registry: Registry<u32> = Registry::new();
    registry.insert(5, 50);
    assert_eq!(registry.remove(5), Some(50));
    assert_eq!(registry.remove(5), None);
    assert_eq!(registry.remove(6), None);
    assert_eq!(registry.len(), 0);
}

#[test]
fn registry_sessions_lists_each_once() {
    let mut registry: Registry<String> = Registry::new();
    for id in 1u16..=20 {
        registry.insert(id, format!("conn-{}", id));
    }
    registry.remove(7);
    let sessions = registry.sessions();
    assert_eq!(sessions.len(), 19);
    let mut expected: Vec<u16> = (1u16..=20).collect();
    expected.retain(|id| *id != 7);
    assert_eq!(identities(&sessions), expected);
    for (id, conn) in sessions {
        assert_eq!(*conn, format!("conn-{}", id));
    }
}

#[test]
fn identities_start_at_one_and_count_up() {
    let mut server: Server<()> = Server::new();
    for expected in 1u16..=100 {
        assert_eq!(server.accept(()), Some(expected));
    }
}

#[test]
fn identities_are_distinct() {
    let mut server: Server<usize> = Server::new();
    let mut seen = std::collections::HashSet::new();
    for n in 0usize..1000 {
        let id = server.accept(n).unwrap();
        assert!(seen.insert(id));
        if n % 3 == 0 {
            server.disconnect(id);
        }
    }
    assert_eq!(seen.len(), 1000);
}

#[test]
fn identities_are_not_reused_after_disconnect() {
    let mut server: Server<()> = Server::new();
    assert_eq!(server.accept(()), Some(1));
    assert_eq!(server.accept(()), Some(2));
    server.disconnect(1);
    server.disconnect(2);
    assert_eq!(server.accept(()), Some(3));
    assert!(!server.is_registered(1));
    assert!(!server.is_registered(2));
    assert!(server.is_registered(3));
}

#[test]
fn identities_run_out_after_the_last() {
    let mut server: Server<()> = Server::new();
    for expected in 1u32..=65535 {
        assert_eq!(server.accept(()), Some(expected as u16));
        if expected < 65535 {
            server.disconnect(expected as u16);
        }
    }
    assert_eq!(server.accept(()), None);
    assert_eq!(server.accept(()), None);
    assert!(server.is_registered(65535));
    assert!(!server.is_registered(0));
}

#[test]
fn stamp_overwrites_from() {
    let claimed = Packet::Say(Message { from: 999, to: 4, content: b"spoof".to_vec() });
    assert_eq!(
        stamp(17, claimed),
        Some(Message { from: 17, to: 4, content: b"spoof".to_vec() })
    );
    let zero = Packet::Say(Message { from: 0, to: 0, content: vec![] });
    assert_eq!(stamp(2, zero), Some(Message { from: 2, to: 0, content: vec![] }));
}

#[test]
fn stamp_ignores_user_list() {
    assert_eq!(stamp(1, Packet::UserList), None);
}

#[test]
fn disconnect_of_unknown_identity_changes_nothing() {
    let mut server: Server<u8> = Server::new();
    assert_eq!(server.accept(10), Some(1));
    server.disconnect(42);
    server.disconnect(0);
    assert!(server.is_registered(1));
    let mut buf = [0u8; 1024];
    let (_, sessions) = server.broadcast(Message { from: 1, to: 0, content: vec![] }, &mut buf);
    assert_eq!(identities(&sessions), vec![1]);
}

#[test]
fn broadcast_reaches_every_session_with_the_same_bytes() {
    let mut server: Server<String> = Server::new();
    for name in ["a", "b", "c", "d"] {
        server.accept(name.to_string());
    }
    let sent = Packet::Say(Message { from: 0xBEEF, to: 0, content: b"hello".to_vec() });
    let message = stamp(3, sent).unwrap();
    let mut buf = [0u8; 1024];
    let (n, sessions) = server.broadcast(message, &mut buf);
    assert_eq!(n, 12);
    assert_eq!(identities(&sessions), vec![1, 2, 3, 4]);
    let mut names: Vec<&str> = sessions.iter().map(|s| s.1.as_str()).collect();
    names.sort();
    assert_eq!(names, vec!["a", "b", "c", "d"]);
    assert_eq!(
        decode_packet(&buf[..n]),
        Ok(Packet::Say(Message { from: 3, to: 0, content: b"hello".to_vec() }))
    );
}

#[test]
fn broadcast_on_empty_server_has_no_recipient() {
    let server: Server<()> = Server::new();
    let mut buf = [0u8; 16];
    let (n, sessions) = server.broadcast(Message { from: 1, to: 2, content: vec![7] }, &mut buf);
    assert_eq!(n, 8);
    assert!(sessions.is_empty());
    assert_eq!(&buf[..8], &[0, 6, 1, 0, 1, 0, 2, 7]);
}

#[test]
fn no_delivery_after_disconnect() {
    let mut server: Server<u32> = Server::new();
    let a = server.accept(100).unwrap();
    let b = server.accept(200).unwrap();
    let c = server.accept(300).unwrap();
    server.disconnect(b);
    let mut buf = [0u8; 1024];
    for round in 0u32..5 {
        if round == 2 {
            server.accept(400 + round);
        }
        let (_, sessions) =
            server.broadcast(Message { from: a, to: 0, content: vec![round as u8] }, &mut buf);
        let ids = identities(&sessions);
        assert!(!ids.contains(&b));
        assert!(ids.contains(&a));
        assert!(ids.contains(&c));
    }
}

/// What a client reads from its socket when the server writes `frame` to it.
fn delivered(frame: &[u8]) -> Packet {
    let (taken, packet) = receive_packet(frame);
    assert_eq!(taken, frame.len());
    packet.unwrap()
}

#[test]
fn two_clients_scenario() {
    let mut server: Server<&str> = Server::new();
    let first = server.accept("socket of client 1").unwrap();
    let second = server.accept("socket of client 2").unwrap();
    assert_eq!((first, second), (1, 2));

    // client 1 types "hi"
    let typed = compose("hi\n").unwrap();
    let mut out = [0u8; 1024];
    let sent: usize = encode_packet(&typed, &mut out);
    // the server's receive loop for client 1
    let (_, arrived) = receive_packet(&out[..sent]);
    let message = stamp(first, arrived.unwrap()).unwrap();
    // the broadcast task
    let mut buf = [0u8; 1024];
    let (n, sessions) = server.broadcast(message, &mut buf);
    assert_eq!(identities(&sessions), vec![1, 2]);
    let expected = Packet::Say(Message { from: 1, to: 0, content: b"hi".to_vec() });
    for _ in &sessions {
        assert_eq!(delivered(&buf[..n]), expected);
    }

    // client 2 goes away: its receive loop sees the end of the stream
    assert!(receive_packet(&[]).1.is_err());
    server.disconnect(second);

    // client 1 types "bye"
    let typed = compose("bye\n").unwrap();
    let sent: usize = encode_packet(&typed, &mut out);
    let (_, arrived) = receive_packet(&out[..sent]);
    let message = stamp(first, arrived.unwrap()).unwrap();
    let (n, sessions) = server.broadcast(message, &mut buf);
    assert_eq!(identities(&sessions), vec![1]);
    assert_eq!(*sessions[0].1, "socket of client 1");
    assert_eq!(
        delivered(&buf[..n]),
        Packet::Say(Message { from: 1, to: 0, content: b"bye".to_vec() })
    );
}
