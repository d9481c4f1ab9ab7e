//! A connection as the broker sees it: who it is, what it subscribed to, and
//! the schema fragment it contributed. The socket is not here; what is to
//! be written to it leaves the broker as an action.

use crate::error::{Error, ErrorKind};
use crate::key::{RawKey, StringKey};
use crate::packet::{decode, Packet, PacketView};
use crate::subscription::SubscriptionSet;
use crate::text::{decimal, to_decimal};
use crate::value::{Value, ValueView};
use vstd::prelude::*;
use vstd::string::*;

verus! {

/// The key that names a connection inside the broker.
pub type ConnectionId = RawKey<8>;

/// The code of an error about a subscription.
pub const PACKET_SUBSCRIPTION_ERR: u32 = 1;

/// The code of an error about a schema.
pub const PACKET_SCHEMA_ERR: u32 = 2;

/// The code of an error about an update.
pub const PACKET_UPDATE_ERR: u32 = 3;

/// What the broker needs to know of a transport error.
#[derive(Debug, Clone, Copy, PartialEq, Eq, Structural)]
pub enum ConnectionErrorKind {
    Reset,
    Aborted,
    Refused,
    NotConnected,
    /// The peer closed the stream.
    Eof,
    Other,
}

/// What happens to the broker.
#[derive(Debug, Clone, PartialEq, Eq)]
pub enum Event {
    /// A stream was accepted from the peer of the given address.
    Connection { address: String },
    /// A connection sent a packet.
    Packet { from: ConnectionId, packet: Packet<StringKey> },
    /// A connection failed.
    ConnectionError { from: ConnectionId, kind: ConnectionErrorKind },
    /// The listener failed.
    ServerError { message: String },
    /// An update was accepted: the point has a new value.
    PointUpdate { id: StringKey, new_value: Value },
}

/// What the broker wants done.
#[derive(Debug, Clone, PartialEq, Eq)]
pub enum Action {
    /// Start reading packets from the stream that was accepted, under this id.
    Listen { id: ConnectionId },
    /// Write the packet to the connection, in answer to what it sent. A
    /// failure to write is logged and has no further consequence.
    Reply { to: ConnectionId, packet: Packet<StringKey> },
    /// Write the packet to the connection, as a subscriber. A failure to
    /// write is an error of kind `Aborted` of that connection.
    Forward { to: ConnectionId, packet: Packet<StringKey> },
    /// Put the event in the queue of events.
    Emit { event: Event },
    /// Close the stream of the connection.
    Close { id: ConnectionId },
}

/// An event as mathematics sees it.
pub enum EventView {
    Connection { address: Seq<char> },
    Packet { from: Seq<u8>, packet: PacketView },
    ConnectionError { from: Seq<u8>, kind: ConnectionErrorKind },
    ServerError { message: Seq<char> },
    PointUpdate { id: Seq<char>, new_value: ValueView },
}

/// An action as mathematics sees it.
pub enum ActionView {
    Listen { id: Seq<u8> },
    Reply { to: Seq<u8>, packet: PacketView },
    Forward { to: Seq<u8>, packet: PacketView },
    Emit { event: EventView },
    Close { id: Seq<u8> },
}

impl View for Event {
    type V = EventView;

    open spec fn view(&self) -> EventView {
        match self {
            Event::Connection { address } => EventView::Connection { address: address@ },
            Event::Packet { from, packet } => EventView::Packet { from: from@, packet: packet@ },
            Event::ConnectionError { from, kind } => EventView::ConnectionError {
                from: from@,
                kind: *kind,
            },
            Event::ServerError { message } => EventView::ServerError { message: message@ },
            Event::PointUpdate { id, new_value } => EventView::PointUpdate {
                id: id@,
                new_value: new_value@,
            },
        }
    }
}

impl View for Action {
    type V = ActionView;

    open spec fn view(&self) -> ActionView {
        match self {
            Action::Listen { id } => ActionView::Listen { id: id@ },
            Action::Reply { to, packet } => ActionView::Reply { to: to@, packet: packet@ },
            Action::Forward { to, packet } => ActionView::Forward { to: to@, packet: packet@ },
            Action::Emit { event } => ActionView::Emit { event: event@ },
            Action::Close { id } => ActionView::Close { id: id@ },
        }
    }
}

/// The event that a connection was aborted.
pub open spec fn aborted(from: Seq<u8>) -> EventView {
    EventView::ConnectionError { from, kind: ConnectionErrorKind::Aborted }
}

impl Action {
    /// What a failure to carry out the action is to the broker: a failure
    /// to deliver an update to a subscriber aborts the connection of that
    /// subscriber; any other failure has no consequence.
    pub fn failed(&self) -> (event: Option<Event>)
        ensures
            match self {
                Action::Forward { to, .. } => event matches Some(e) && e@ == aborted(to@),
                _ => event is None,
            },
    {
        match self {
            Action::Forward { to, .. } => Some(
                Event::ConnectionError { from: *to, kind: ConnectionErrorKind::Aborted },
            ),
            _ => None,
        }
    }
}

/// The views of a sequence of actions.
pub open spec fn action_views(actions: Seq<Action>) -> Seq<ActionView> {
    Seq::new(actions.len(), |i: int| actions[i]@)
}

/// The text of an error packet: the code, a colon, the message.
pub open spec fn error_text(code: u32, message: Seq<char>) -> Seq<char> {
    decimal(code as nat) + ": "@ + message
}

/// The error packet of a code and a message.
pub open spec fn error_packet(code: u32, message: Seq<char>) -> PacketView {
    PacketView::Error { value: ValueView::String(error_text(code, message)) }
}

/// The error packet of a code and a message.
pub fn make_error(code: u32, message: &str) -> (packet: Packet<StringKey>)
    ensures
        packet@ == error_packet(code, message@),
        packet.keys_wf(),
{
    let mut text = to_decimal(code as u64);
    text.append(": ");
    text.append(message);
    Packet::Error { value: Value::String(text) }
}

/// Whether a transport error ends the reading of a connection.
pub open spec fn ends_reading(kind: ConnectionErrorKind) -> bool {
    kind == ConnectionErrorKind::Reset || kind == ConnectionErrorKind::Aborted || kind
        == ConnectionErrorKind::Refused || kind == ConnectionErrorKind::NotConnected || kind
        == ConnectionErrorKind::Eof
}

/// Whether a transport error takes a connection out of the table.
pub open spec fn removes(kind: ConnectionErrorKind) -> bool {
    kind == ConnectionErrorKind::Reset || kind == ConnectionErrorKind::Aborted || kind
        == ConnectionErrorKind::Refused || kind == ConnectionErrorKind::Eof
}

/// What the reader of a connection does next, given the bytes it has read
/// of the packet at hand.
#[derive(Debug, Clone, PartialEq, Eq)]
pub enum ReadStep {
    /// Read exactly this many bytes more, then ask again.
    Need { missing: u64 },
    /// The bytes are this packet, whole.
    Done { packet: Packet<StringKey> },
    /// The bytes are no packet: the stream is broken.
    Failed { error: Error },
}

/// A connection: its id, the address of its peer, its subscriptions and
/// the schema fragment it submitted last.
#[derive(Debug)]
pub struct Connection {
    pub id: ConnectionId,
    pub address: String,
    pub subscriptions: SubscriptionSet,
    pub raw_schema: Option<String>,
}

impl Connection {
    /// The subscriptions of the connection.
    pub open spec fn spec_subscriptions(&self) -> SubscriptionSet {
        self.subscriptions
    }

    /// The schema fragment that the connection submitted last.
    pub open spec fn spec_schema(&self) -> Option<String> {
        self.raw_schema
    }

    /// A connection to the peer of the given address, under a random id,
    /// without subscriptions and without a schema fragment. The error of
    /// the random generator where it fails.
    pub fn new(address: String) -> (made: Result<Connection, Error>)
        ensures
            match made {
                Ok(connection) => {
                    &&& connection.address == address
                    &&& connection.spec_subscriptions()@.len() == 0
                    &&& connection.spec_schema() is None
                },
                Err(e) => e.kind == ErrorKind::Other,
            },
    {
        match ConnectionId::new_random() {
            Ok(id) => Ok(Connection::with_id(id, address)),
            Err(e) => Err(e),
        }
    }

    /// A connection to the peer of the given address, under the given id,
    /// without subscriptions and without a schema fragment.
    pub fn with_id(id: ConnectionId, address: String) -> (made: Connection)
        ensures
            made.id == id,
            made.address == address,
            made.spec_subscriptions()@.len() == 0,
            made.spec_schema() is None,
    {
        Connection { id, address, subscriptions: SubscriptionSet::empty(), raw_schema: None }
    }

    /// What the reader does next, given the bytes read so far of the packet
    /// at hand: it reads on while the bytes are the beginning of a packet,
    /// hands the packet over when they are one, and gives up when they
    /// cannot become one.
    pub fn read_step(buffer: &[u8]) -> (step: ReadStep)
        ensures
            match step {
                ReadStep::Need { missing } => decode::<StringKey>(buffer@) == Err::<
                    (PacketView, nat),
                    ErrorKind,
                >(ErrorKind::ShortRead { missing }),
                ReadStep::Done { packet } => decode::<StringKey>(buffer@) == Ok::<
                    (PacketView, nat),
                    ErrorKind,
                >((packet@, buffer@.len())) && packet.keys_wf(),
                ReadStep::Failed { error } => {
                    &&& !(error.kind is ShortRead)
                    &&& error.is_of(error.kind)
                    &&& match decode::<StringKey>(buffer@) {
                        Ok((_, used)) => used < buffer@.len() && error.kind == ErrorKind::Other,
                        Err(kind) => error.kind == kind,
                    }
                },
            },
    {
        match Packet::<StringKey>::read_from(buffer) {
            Ok((packet, used)) => {
                if used == buffer.len() {
                    ReadStep::Done { packet }
                } else {
                    ReadStep::Failed { error: Error::of(ErrorKind::Other) }
                }
            },
            Err(e) => match e.kind {
                ErrorKind::ShortRead { missing } => ReadStep::Need { missing },
                _ => ReadStep::Failed { error: e },
            },
        }
    }

    /// Whether a transport error ends the reading of a connection.
    pub fn stops_reading(kind: ConnectionErrorKind) -> (stops: bool)
        ensures
            stops == ends_reading(kind),
    {
        match kind {
            ConnectionErrorKind::Reset
            | ConnectionErrorKind::Aborted
            | ConnectionErrorKind::Refused
            | ConnectionErrorKind::NotConnected
            | ConnectionErrorKind::Eof => true,
            ConnectionErrorKind::Other => false,
        }
    }

    /// The event that a stream which brought no packet is to the broker:
    /// the connection of the given id was aborted.
    pub fn read_failed(id: ConnectionId) -> (event: Event)
        ensures
            event@ == aborted(id@),
    {
        Event::ConnectionError { from: id, kind: ConnectionErrorKind::Aborted }
    }

    /// The action that starts the reading of packets from this connection.
    pub fn listen(&self) -> (action: Action)
        ensures
            action@ == (ActionView::Listen { id: self.id@ }),
    {
        Action::Listen { id: self.id }
    }

    /// The action that writes a packet to this connection, in answer to
    /// what it sent.
    pub fn write_packet(&self, packet: Packet<StringKey>) -> (action: Action)
        ensures
            action@ == (ActionView::Reply { to: self.id@, packet: packet@ }),
    {
        Action::Reply { to: self.id, packet }
    }

    /// The action that tells this connection that its request was accepted.
    pub fn send_ok(&self) -> (action: Action)
        ensures
            action@ == (ActionView::Reply { to: self.id@, packet: PacketView::Okay }),
    {
        self.write_packet(Packet::Okay {  })
    }

    /// The action that tells this connection that its request was refused.
    pub fn send_err(&self, code: u32, error: &str) -> (action: Action)
        ensures
            action@ == (ActionView::Reply { to: self.id@, packet: error_packet(code, error@) }),
    {
        self.write_packet(make_error(code, error))
    }

    /// The subscriptions of the connection.
    pub fn subscription_set(&self) -> (set: &SubscriptionSet)
        ensures
            *set == self.spec_subscriptions(),
    {
        &self.subscriptions
    }

    /// The subscriptions of the connection, to be changed in place.
    pub fn subscription_set_mut(&mut self) -> (set: &mut SubscriptionSet)
        ensures
            *set == old(self).subscriptions,
            final(self).subscriptions == *final(set),
            final(self).id == old(self).id,
            final(self).address == old(self).address,
            final(self).raw_schema == old(self).raw_schema,
    {
        &mut self.subscriptions
    }

    /// Adds a pattern to the subscriptions of the connection; see
    /// `SubscriptionSet::insert_point`.
    pub fn subscribe(&mut self, pattern: &str) -> (done: Result<
        (),
        crate::subscription::SubscriptionError,
    >)
        ensures
            final(self).id == old(self).id,
            final(self).address == old(self).address,
            final(self).spec_schema() == old(self).spec_schema(),
            match done {
                Ok(()) => crate::subscription::compiles(
                    crate::subscription::with_pattern(old(self).spec_subscriptions()@, pattern@),
                ) && final(self).spec_subscriptions()@ == crate::subscription::with_pattern(
                    old(self).spec_subscriptions()@,
                    pattern@,
                ),
                Err(_) => !crate::subscription::compiles(
                    crate::subscription::with_pattern(old(self).spec_subscriptions()@, pattern@),
                ) && final(self).spec_subscriptions()@ == old(self).spec_subscriptions()@,
            },
    {
        self.subscriptions.insert_point(pattern)
    }

    /// Notes the schema fragment that the connection submitted.
    pub fn set_schema(&mut self, new_schema: String)
        ensures
            final(self).id == old(self).id,
            final(self).address == old(self).address,
            final(self).spec_subscriptions() == old(self).spec_subscriptions(),
            final(self).spec_schema() == Some(new_schema),
    {
        self.raw_schema = Some(new_schema);
    }

    /// The schema fragment that the connection submitted last.
    pub fn get_schema(&self) -> (schema: &Option<String>)
        ensures
            *schema == self.spec_schema(),
    {
        &self.raw_schema
    }
}

} // verus!
