use chat::client::{compose, say, UNASSIGNED};
use chat::packet::{Message, Packet};

#[test]
fn blank_lines_are_skipped() {
    assert_eq!(compose(""), None);
    assert_eq!(compose("\n"), None);
    assert_eq!(compose("   \t \r\n"), None);
}

#[test]
fn line_is_trimmed_and_wrapped() {
    assert_eq!(
        compose("  hello world \n"),
        Some(Packet::Say(Message { from: 0, to: 0, content: b"hello world".to_vec() }))
    );
}

#[test]
fn inner_whitespace_stays() {
    assert_eq!(
        compose("\ta  b\t"),
        Some(Packet::Say(Message { from: 0, to: 0, content: b"a  b".to_vec() }))
    );
}

#[test]
fn content_is_utf8() {
    assert_eq!(
        compose("gr\u{fc}\u{df}e\n"),
        Some(Packet::Say(Message {
            from: UNASSIGNED,
            to: UNASSIGNED,
            content: vec![b'g', b'r', 0xC3, 0xBC, 0xC3, 0x9F, b'e'],
        }))
    );
}

#[test]
fn say_takes_the_text_as_it_is() {
    assert_eq!(say(""), None);
    assert_eq!(
        say(" x "),
        Some(Packet::Say(Message { from: 0, to: 0, content: b" x ".to_vec() }))
    );
}

#[test]
fn whitespace_is_what_unicode_calls_so() {
    assert_eq!(
        compose("\u{3000}\u{a0}hi\u{2003}\u{85}"),
        Some(Packet::Say(Message { from: 0, to: 0, content: b"hi".to_vec() }))
    );
    assert_eq!(compose("\u{2028}\u{2029}\u{1680}"), None);
    // a zero-width space is no whitespace
    assert_eq!(
        compose("\u{200b}"),
        Some(Packet::Say(Message { from: 0, to: 0, content: vec![0xE2, 0x80, 0x8B] }))
    );
}
