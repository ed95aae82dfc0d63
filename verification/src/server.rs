//! The decisions of the server: who gets which identity, who is registered,
//! what a client's message becomes and who receives it.

use crate::frame::{lemma_say_round_trip, reception, ReceiveError, MAX_CONTENT_LEN};
use crate::packet::{encode_packet, Message, MessageView, Packet, PacketView};
use crate::registry::Registry;
use vstd::prelude::*;

verus! {

/// The first identity that a server hands out.
pub const FIRST_IDENTITY: u16 = 1;

/// What a `Server` is, mathematically.
pub struct ServerView<C> {
    /// The identity that the next accepted connection gets; one more than
    /// `u16::MAX` once every identity has been handed out.
    pub next_identity: nat,
    /// The live sessions.
    pub sessions: Map<u16, C>,
}

/// What happens to a server from outside.
pub enum Event<C> {
    /// A connection was accepted; the value is the handle to write to it.
    Accepted(C),
    /// The receive loop of this identity has ended.
    Disconnected(u16),
}

impl<C> ServerView<C> {
    /// A server that has accepted nothing yet.
    pub open spec fn initial() -> Self {
        ServerView { next_identity: FIRST_IDENTITY as nat, sessions: Map::empty() }
    }

    /// Every live session has an identity that was handed out.
    pub open spec fn wf(self) -> bool {
        &&& FIRST_IDENTITY <= self.next_identity <= u16::MAX + 1
        &&& forall|identity: u16| #[trigger]
            self.sessions.contains_key(identity) ==> self.assigned(identity)
    }

    /// Whether `identity` has been handed out at some time.
    pub open spec fn assigned(self, identity: u16) -> bool {
        FIRST_IDENTITY <= identity < self.next_identity
    }

    /// Whether no identity is left to hand out.
    pub open spec fn exhausted(self) -> bool {
        self.next_identity > u16::MAX
    }

    /// The identity that accepting a connection gives it.
    pub open spec fn accepted_identity(self) -> Option<u16> {
        if self.exhausted() {
            None
        } else {
            Some(self.next_identity as u16)
        }
    }

    /// The server after it accepted `connection`.
    pub open spec fn accept(self, connection: C) -> Self {
        if self.exhausted() {
            self
        } else {
            ServerView {
                next_identity: self.next_identity + 1,
                sessions: self.sessions.insert(self.next_identity as u16, connection),
            }
        }
    }

    /// The server after the receive loop of `identity` has ended.
    pub open spec fn disconnect(self, identity: u16) -> Self {
        ServerView { next_identity: self.next_identity, sessions: self.sessions.remove(identity) }
    }

    /// The server after `event`.
    pub open spec fn step(self, event: Event<C>) -> Self {
        match event {
            Event::Accepted(connection) => self.accept(connection),
            Event::Disconnected(identity) => self.disconnect(identity),
        }
    }

    /// The server after `events`, first to last.
    pub open spec fn run(self, events: Seq<Event<C>>) -> Self
        decreases events.len(),
    {
        if events.len() == 0 {
            self
        } else {
            self.step(events[0]).run(events.skip(1))
        }
    }

    /// The identities that `events` hand out, first to last.
    pub open spec fn handed_out(self, events: Seq<Event<C>>) -> Seq<u16>
        decreases events.len(),
    {
        if events.len() == 0 {
            Seq::empty()
        } else {
            let rest = self.step(events[0]).handed_out(events.skip(1));
            match events[0] {
                Event::Accepted(_) => match self.accepted_identity() {
                    Some(identity) => seq![identity] + rest,
                    None => rest,
                },
                Event::Disconnected(_) => rest,
            }
        }
    }

    /// The identities that a broadcast is written to.
    pub open spec fn recipients(self) -> Set<u16> {
        self.sessions.dom()
    }
}

/// What the server makes of a packet that the client `sender` sent: the
/// message to broadcast, if there is one.
pub open spec fn stamped(sender: u16, packet: PacketView) -> Option<MessageView> {
    match packet {
        PacketView::UserList => None,
        PacketView::Say(m) => Some(MessageView { from: sender, to: m.to, content: m.content }),
    }
}

/// Turns a packet that arrived from the client `sender` into the message to
/// broadcast: a `Say` is marked as coming from `sender`, whatever it claimed;
/// a `UserList` asks for nothing.
pub fn stamp(sender: u16, packet: Packet) -> (r: Option<Message>)
    ensures
        match r {
            Some(m) => stamped(sender, packet@) == Some(m@),
            None => stamped(sender, packet@) is None,
        },
{
    match packet {
        Packet::UserList => None,
        Packet::Say(message) => {
            let mut message = message;
            message.from = sender;
            Some(message)
        },
    }
}

/// The server's state: the identity counter and the registry.
pub struct Server<C> {
    next_identity: u32,
    registry: Registry<C>,
}

impl<C> View for Server<C> {
    type V = ServerView<C>;

    closed spec fn view(&self) -> ServerView<C> {
        ServerView { next_identity: self.next_identity as nat, sessions: self.registry@ }
    }
}

impl<C> Server<C> {
    /// A server that has accepted nothing yet.
    pub fn new() -> (r: Self)
        ensures
            r@ == ServerView::<C>::initial(),
            r@.wf(),
    {
        Server { next_identity: FIRST_IDENTITY as u32, registry: Registry::new() }
    }

    /// Gives an accepted connection the next identity and registers it.
    /// Returns the identity, or `None` once every identity has been handed
    /// out; the connection is then dropped and nothing changes.
    pub fn accept(&mut self, connection: C) -> (r: Option<u16>)
        requires
            old(self)@.wf(),
        ensures
            final(self)@.wf(),
            r == old(self)@.accepted_identity(),
            final(self)@ == old(self)@.accept(connection),
    {
        if self.next_identity > 65535 {
            return None;
        }
        let identity = self.next_identity as u16;
        assert(!self.registry@.contains_key(identity)) by {
            if self@.sessions.contains_key(identity) {
                assert(self@.assigned(identity));
            }
        }
        self.registry.insert(identity, connection);
        self.next_identity = self.next_identity + 1;
        assert forall|other: u16| #[trigger]
            self@.sessions.contains_key(other) implies self@.assigned(other) by {
            if other != identity {
                assert(old(self)@.sessions.contains_key(other));
            }
        }
        Some(identity)
    }

    /// Removes the session of `identity`; does nothing if it has none.
    pub fn disconnect(&mut self, identity: u16)
        requires
            old(self)@.wf(),
        ensures
            final(self)@.wf(),
            final(self)@ == old(self)@.disconnect(identity),
    {
        let _ = self.registry.remove(identity);
    }

    /// Whether `identity` has a live session.
    pub fn is_registered(&self, identity: u16) -> (r: bool)
        ensures
            r == self@.sessions.contains_key(identity),
    {
        self.registry.contains(identity)
    }

    /// Encodes `message` once, at the start of `buf`, and lists the sessions
    /// to write the frame to: every live session, each once, in no
    /// particular order. Returns the frame's length and the sessions.
    pub fn broadcast<'a>(&'a self, message: Message, buf: &mut [u8]) -> (r: (
        usize,
        Vec<(u16, &'a C)>,
    ))
        requires
            PacketView::Say(message@).encodable(),
            PacketView::Say(message@).frame_len() <= old(buf)@.len(),
        ensures
            r.0 == PacketView::Say(message@).frame_len(),
            final(buf)@.len() == old(buf)@.len(),
            final(buf)@.take(r.0 as int) == PacketView::Say(message@).encoding(),
            final(buf)@.skip(r.0 as int) == old(buf)@.skip(r.0 as int),
            r.1@.len() == self@.sessions.len(),
            forall|i: int|
                0 <= i < r.1@.len() ==> self@.sessions.contains_pair(r.1@[i].0, *r.1@[i].1),
            forall|i: int, j: int| 0 <= i < j < r.1@.len() ==> r.1@[i].0 != r.1@[j].0,
            forall|identity: u16|
                self@.recipients().contains(identity) ==> exists|i: int|
                    0 <= i < r.1@.len() && r.1@[i].0 == identity,
    {
        let packet = Packet::Say(message);
        let n = encode_packet(&packet, buf);
        let sessions = self.registry.sessions();
        assert forall|identity: u16| self@.recipients().contains(identity) implies exists|i: int|
            0 <= i < sessions@.len() && sessions@[i].0 == identity by {
            assert(self.registry@.contains_key(identity));
        }
        (n, sessions)
    }
}

/// Running events keeps a server well formed and never takes back an
/// identity that was handed out.
pub proof fn lemma_run_wf<C>(s: ServerView<C>, events: Seq<Event<C>>)
    requires
        s.wf(),
    ensures
        s.run(events).wf(),
        s.next_identity <= s.run(events).next_identity,
    decreases events.len(),
{
    if events.len() > 0 {
        lemma_run_wf(s.step(events[0]), events.skip(1));
    }
}

/// Identities are handed out in increasing order, starting at the server's
/// next one: no two accepts get the same identity, and none gets an identity
/// that was handed out before, whatever happens between them.
pub proof fn lemma_identities_distinct<C>(s: ServerView<C>, events: Seq<Event<C>>)
    requires
        s.wf(),
    ensures
        forall|i: int|
            0 <= i < s.handed_out(events).len() ==> #[trigger] s.handed_out(events)[i]
                == s.next_identity + i,
        forall|i: int|
            0 <= i < s.handed_out(events).len() ==> !s.assigned(#[trigger] s.handed_out(events)[i]),
        forall|i: int, j: int|
            0 <= i < j < s.handed_out(events).len() ==> s.handed_out(events)[i] != s.handed_out(
                events,
            )[j],
        s.run(events).next_identity == s.next_identity + s.handed_out(events).len(),
    decreases events.len(),
{
    if events.len() > 0 {
        lemma_identities_distinct(s.step(events[0]), events.skip(1));
    }
}

/// While identities last, accepting a connection registers it under the
/// identity that it is given and leaves every other session as it was.
pub proof fn lemma_accepted_is_registered<C>(s: ServerView<C>, connection: C)
    requires
        s.wf(),
        !s.exhausted(),
    ensures
        s.accept(connection).sessions.contains_pair(s.accepted_identity().unwrap(), connection),
        s.accept(connection).sessions.remove(s.accepted_identity().unwrap()) == s.sessions,
{
    assert(!s.sessions.contains_key(s.next_identity as u16));
    assert(s.accept(connection).sessions.remove(s.next_identity as u16) =~= s.sessions);
}

/// Once the session of an identity is gone, it stays gone: no later event
/// brings it back, so no later broadcast is written to it.
pub proof fn lemma_disconnected_stays_absent<C>(
    s: ServerView<C>,
    identity: u16,
    events: Seq<Event<C>>,
)
    requires
        s.wf(),
        s.assigned(identity),
        !s.sessions.contains_key(identity),
    ensures
        !s.run(events).recipients().contains(identity),
    decreases events.len(),
{
    if events.len() > 0 {
        lemma_disconnected_stays_absent(s.step(events[0]), identity, events.skip(1));
    }
}

/// After the receive loop of a session has ended, no broadcast is written to
/// its identity, whatever happens before the broadcast.
pub proof fn lemma_no_stale_delivery<C>(s: ServerView<C>, identity: u16, events: Seq<Event<C>>)
    requires
        s.wf(),
        s.sessions.contains_key(identity),
    ensures
        !s.disconnect(identity).run(events).recipients().contains(identity),
{
    lemma_disconnected_stays_absent(s.disconnect(identity), identity, events);
}

/// A `Say` that the client `sender` sends reaches every live session, and
/// each of them receives the message that was sent, marked as coming from
/// `sender` whatever the client wrote into `from`.
pub proof fn lemma_fan_out<C>(s: ServerView<C>, sender: u16, claimed: MessageView, recipient: u16)
    requires
        s.wf(),
        s.sessions.contains_key(recipient),
        claimed.content.len() <= MAX_CONTENT_LEN,
    ensures
        ({
            let marked = MessageView { from: sender, to: claimed.to, content: claimed.content };
            &&& reception(PacketView::Say(claimed).encoding()).1 == Ok::<PacketView, ReceiveError>(
                PacketView::Say(claimed),
            )
            &&& stamped(sender, PacketView::Say(claimed)) == Some(marked)
            &&& s.recipients().contains(recipient)
            &&& reception(PacketView::Say(marked).encoding()).1 == Ok::<PacketView, ReceiveError>(
                PacketView::Say(marked),
            )
        }),
{
    let marked = MessageView { from: sender, to: claimed.to, content: claimed.content };
    lemma_say_round_trip(claimed, Seq::empty());
    lemma_say_round_trip(marked, Seq::empty());
    assert(PacketView::Say(claimed).encoding() + Seq::<u8>::empty() =~= PacketView::Say(
        claimed,
    ).encoding());
    assert(PacketView::Say(marked).encoding() + Seq::<u8>::empty() =~= PacketView::Say(
        marked,
    ).encoding());
}

} // verus!
