//! The decisions of the client: what a typed line becomes.

use crate::packet::{Message, MessageView, Packet, PacketView};
use vstd::prelude::*;
use vstd::string::StrSliceExecFns;

verus! {

/// The identity that a client writes into `from` and `to`: the server, not
/// the client, says who a message is from.
pub const UNASSIGNED: u16 = 0;

/// Whether `ch` is whitespace: whether it has the Unicode property
/// `White_Space`, as `char::is_whitespace` tells.
pub uninterp spec fn whitespace(ch: char) -> bool;

/// Number of whitespace characters that `text` starts with.
pub open spec fn leading(text: Seq<char>) -> nat
    decreases text.len(),
{
    if text.len() > 0 && whitespace(text[0]) {
        1 + leading(text.skip(1))
    } else {
        0
    }
}

/// Number of whitespace characters that `text` ends with.
pub open spec fn trailing(text: Seq<char>) -> nat
    decreases text.len(),
{
    if text.len() > 0 && whitespace(text.last()) {
        1 + trailing(text.drop_last())
    } else {
        0
    }
}

/// `text` without the whitespace that it starts and ends with.
pub open spec fn trimmed(text: Seq<char>) -> Seq<char> {
    let rest = text.skip(leading(text) as int);
    rest.take(rest.len() - trailing(rest))
}

/// Calls `str::trim`, which returns the string without its leading and
/// trailing whitespace, where whitespace is what has the Unicode property
/// `White_Space`. The contract says so over `whitespace`, which stands for
/// that property, and is not proved here.
#[verifier::external_body]
fn trim(line: &str) -> (text: &str)
    ensures
        text@ == trimmed(line@),
        text@.len() > 0 ==> !whitespace(text@.first()) && !whitespace(text@.last()),
{
    line.trim()
}

/// The packet that a client sends for a line that was trimmed to `text`:
/// none for a blank line, else a `Say` that carries the text as UTF-8.
pub open spec fn line_packet(text: Seq<char>) -> Option<PacketView> {
    if text.len() == 0 {
        None
    } else {
        Some(
            PacketView::Say(
                MessageView {
                    from: UNASSIGNED,
                    to: UNASSIGNED,
                    content: vstd::utf8::encode_utf8(text),
                },
            ),
        )
    }
}

/// Wraps a trimmed line into the packet to send, or into nothing if the
/// line is blank.
pub fn say(text: &str) -> (r: Option<Packet>)
    ensures
        match r {
            Some(p) => line_packet(text@) == Some(p@),
            None => line_packet(text@) is None,
        },
{
    if text.is_empty() {
        None
    } else {
        let content = text.as_bytes_vec();
        Some(Packet::Say(Message { from: UNASSIGNED, to: UNASSIGNED, content }))
    }
}

/// Turns a line as it was typed into the packet to send: the line is
/// trimmed, a blank line is skipped.
pub fn compose(line: &str) -> (r: Option<Packet>)
    ensures
        match r {
            Some(p) => line_packet(trimmed(line@)) == Some(p@),
            None => line_packet(trimmed(line@)) is None,
        },
{
    say(trim(line))
}

/// The whitespace that a text starts with is no longer than the text, and is
/// followed by the end of the text or by a character that is no whitespace.
pub proof fn lemma_leading(text: Seq<char>)
    ensures
        leading(text) <= text.len(),
        forall|i: int| 0 <= i < leading(text) ==> whitespace(#[trigger] text[i]),
        leading(text) < text.len() ==> !whitespace(text[leading(text) as int]),
    decreases text.len(),
{
    if text.len() > 0 && whitespace(text[0]) {
        lemma_leading(text.skip(1));
        assert forall|i: int| 0 <= i < leading(text) implies whitespace(#[trigger] text[i]) by {
            if i > 0 {
                assert(text[i] == text.skip(1)[i - 1]);
            }
        }
    }
}

/// The whitespace that a text ends with is no longer than the text, and
/// comes after the start of the text or after a character that is no
/// whitespace.
pub proof fn lemma_trailing(text: Seq<char>)
    ensures
        trailing(text) <= text.len(),
        forall|i: int|
            text.len() - trailing(text) <= i < text.len() ==> whitespace(#[trigger] text[i]),
        trailing(text) < text.len() ==> !whitespace(text[text.len() - trailing(text) - 1]),
    decreases text.len(),
{
    if text.len() > 0 && whitespace(text.last()) {
        lemma_trailing(text.drop_last());
        assert forall|i: int| text.len() - trailing(text) <= i < text.len() implies whitespace(
            #[trigger] text[i],
        ) by {
            if i < text.len() - 1 {
                assert(text[i] == text.drop_last()[i]);
            }
        }
    }
}

/// A line is skipped if and only if it holds nothing but whitespace.
pub proof fn lemma_blank_line_skipped(line: Seq<char>)
    ensures
        line_packet(trimmed(line)) is None <==> forall|i: int|
            0 <= i < line.len() ==> whitespace(#[trigger] line[i]),
{
    lemma_leading(line);
    let rest = line.skip(leading(line) as int);
    lemma_trailing(rest);
    if leading(line) < line.len() {
        assert(rest[0] == line[leading(line) as int]);
        assert(!whitespace(rest[0]));
        if trailing(rest) == rest.len() {
            assert(whitespace(rest[0]));
        }
    }
}

/// A line that neither starts nor ends with whitespace is sent as it is, with
/// no sender and no addressee named.
pub proof fn lemma_plain_line_sent(line: Seq<char>)
    ensures
        line.len() > 0 && !whitespace(line.first()) && !whitespace(line.last()) ==> line_packet(
            trimmed(line),
        ) == Some(
            PacketView::Say(
                MessageView {
                    from: UNASSIGNED,
                    to: UNASSIGNED,
                    content: vstd::utf8::encode_utf8(line),
                },
            ),
        ),
{
    assert(line.skip(0) =~= line);
    assert(line.take(line.len() as int) =~= line);
}

} // verus!
