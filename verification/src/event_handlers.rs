//! What each event does to the broker: the change to the table of
//! connections and to the schema in force, and the actions that follow.

use crate::connection::{
    action_views, error_packet, removes, Action, ActionView, Connection, ConnectionErrorKind,
    ConnectionId, Event, EventView, PACKET_SCHEMA_ERR, PACKET_SUBSCRIPTION_ERR, PACKET_UPDATE_ERR,
};
use crate::error::Error;
use crate::key::{Key, StringKey};
use crate::packet::{Packet, PacketView};
use crate::parser::{declares_facts, is_refused};
use crate::store::{check, joined, requests_after, Store, UpdateError, ValueStore};
use crate::subscription::{compiles, with_pattern};
use crate::syntax::ParseError;
use crate::text::bytes_eq;
use crate::value::{Value, ValueView};
use vstd::prelude::*;
use vstd::string::*;

verus! {

/// The place of the first connection of the given id in the table.
pub open spec fn index_of(connections: Seq<Connection>, id: Seq<u8>) -> Option<int>
    decreases connections.len(),
{
    if connections.len() == 0 {
        None
    } else {
        match index_of(connections.drop_last(), id) {
            Some(i) => Some(i),
            None => if connections.last().id@ == id {
                Some(connections.len() - 1)
            } else {
                None
            },
        }
    }
}

/// `index_of` finds the first connection of the id, and none where no
/// connection has the id.
pub proof fn lemma_index_of(connections: Seq<Connection>, id: Seq<u8>)
    ensures
        match index_of(connections, id) {
            Some(i) => 0 <= i < connections.len() && connections[i].id@ == id && forall|j: int|
                0 <= j < i ==> (#[trigger] connections[j]).id@ != id,
            None => forall|j: int|
                0 <= j < connections.len() ==> (#[trigger] connections[j]).id@ != id,
        },
    decreases connections.len(),
{
    if connections.len() > 0 {
        let shorter = connections.drop_last();
        lemma_index_of(shorter, id);
        match index_of(shorter, id) {
            Some(i) => {
                assert forall|j: int| 0 <= j < i implies (#[trigger] connections[j]).id@ != id by {
                    assert(shorter[j] == connections[j]);
                }
                assert(shorter[i] == connections[i]);
            },
            None => {
                assert forall|j: int| 0 <= j < connections.len() - 1 implies (
                #[trigger] connections[j]).id@ != id by {
                    assert(shorter[j] == connections[j]);
                }
            },
        }
    }
}

/// The schema fragments of the connections that submitted one, in the
/// order of the table.
pub open spec fn fragments(connections: Seq<Connection>) -> Seq<Seq<char>>
    decreases connections.len(),
{
    if connections.len() == 0 {
        Seq::empty()
    } else {
        match connections.last().raw_schema {
            Some(fragment) => fragments(connections.drop_last()).push(fragment@),
            None => fragments(connections.drop_last()),
        }
    }
}

/// The deliveries of an update: one to each connection of the table whose
/// subscriptions match the name of the point, in the order of the table.
pub open spec fn fan_out(connections: Seq<Connection>, id: Seq<char>, update: PacketView) -> Seq<
    ActionView,
>
    decreases connections.len(),
{
    if connections.len() == 0 {
        Seq::empty()
    } else if connections.last().subscriptions.spec_matches(id) {
        fan_out(connections.drop_last(), id, update).push(
            ActionView::Forward { to: connections.last().id@, packet: update },
        )
    } else {
        fan_out(connections.drop_last(), id, update)
    }
}

/// The number of deliveries of a packet to a connection among actions.
pub open spec fn deliveries(actions: Seq<ActionView>, to: Seq<u8>, packet: PacketView) -> nat
    decreases actions.len(),
{
    if actions.len() == 0 {
        0
    } else {
        deliveries(actions.drop_last(), to, packet) + if actions.last() == (ActionView::Forward {
            to,
            packet,
        }) {
            1nat
        } else {
            0nat
        }
    }
}

/// The number of entries of the table that have the given id and whose
/// subscriptions match the name of the point.
pub open spec fn subscribers(connections: Seq<Connection>, id: Seq<u8>, point: Seq<char>) -> nat
    decreases connections.len(),
{
    if connections.len() == 0 {
        0
    } else {
        subscribers(connections.drop_last(), id, point) + if connections.last().id@ == id
            && connections.last().subscriptions.spec_matches(point) {
            1nat
        } else {
            0nat
        }
    }
}

/// The fan-out is complete and exact: an update is delivered once for
/// every entry of the table whose subscriptions match the name of the
/// point, to the connection of that entry, and nothing else is done.
pub proof fn lemma_fan_out_is_complete(
    connections: Seq<Connection>,
    point: Seq<char>,
    update: PacketView,
    id: Seq<u8>,
)
    ensures
        deliveries(fan_out(connections, point, update), id, update) == subscribers(
            connections,
            id,
            point,
        ),
        forall|k: int|
            0 <= k < fan_out(connections, point, update).len() ==> (#[trigger] fan_out(
                connections,
                point,
                update,
            )[k] matches ActionView::Forward { packet, .. } && packet == update),
    decreases connections.len(),
{
    if connections.len() > 0 {
        let shorter = connections.drop_last();
        lemma_fan_out_is_complete(shorter, point, update, id);
        let all = fan_out(connections, point, update);
        if connections.last().subscriptions.spec_matches(point) {
            assert(all.drop_last() =~= fan_out(shorter, point, update));
            assert forall|k: int| 0 <= k < all.len() implies (
            #[trigger] all[k] matches ActionView::Forward { packet, .. } && packet == update) by {
                if k < all.len() - 1 {
                    assert(all[k] == fan_out(shorter, point, update)[k]);
                }
            }
        }
    }
}

/// The place of the first connection of the given id in the table.
pub fn find_connection(connections: &Vec<Connection>, id: &ConnectionId) -> (found: Option<usize>)
    ensures
        match found {
            Some(i) => index_of(connections@, id@) == Some(i as int) && i < connections@.len(),
            None => index_of(connections@, id@) is None,
        },
{
    let mut i: usize = 0;
    while i < connections.len()
        invariant
            i <= connections@.len(),
            forall|j: int| 0 <= j < i ==> (#[trigger] connections@[j]).id@ != id@,
        decreases connections@.len() - i,
    {
        if bytes_eq(connections[i].id.as_slice(), id.as_slice()) {
            proof {
                lemma_index_of(connections@, id@);
                assert(connections@[i as int].id@ == id@);
            }
            return Some(i);
        }
        i = i + 1;
    }
    proof {
        lemma_index_of(connections@, id@);
    }
    None
}

/// A stream was accepted: a connection is made for it and put at the end
/// of the table, and its reader is to be started. Where no id can be drawn
/// for the connection, nothing happens.
pub fn handle_new_connection(connections: &mut Vec<Connection>, address: String) -> (actions: Vec<
    Action,
>)
    ensures
        actions@.len() <= 1,
        actions@.len() == 0 ==> final(connections)@ == old(connections)@,
        actions@.len() == 1 ==> {
            &&& final(connections)@.len() == old(connections)@.len() + 1
            &&& final(connections)@.drop_last() == old(connections)@
            &&& final(connections)@.last().address == address
            &&& final(connections)@.last().subscriptions@.len() == 0
            &&& final(connections)@.last().raw_schema is None
            &&& actions@[0]@ == (ActionView::Listen { id: final(connections)@.last().id@ })
        },
{
    let made = Connection::new(address);
    let actions = add_connection(connections, made);
    proof {
        assert(action_views(actions@).len() == actions@.len());
        if made is Ok {
            assert(connections@.drop_last() =~= old(connections)@);
            assert(action_views(actions@)[0] == actions@[0]@);
        }
    }
    actions
}

/// What becomes of an accepted stream once a connection was made for it,
/// or could not be: the connection is put at the end of the table, and its
/// reader is to be started; where there is no connection, nothing happens.
pub fn add_connection(
    connections: &mut Vec<Connection>,
    made: Result<Connection, Error>,
) -> (actions: Vec<Action>)
    ensures
        match made {
            Ok(connection) => final(connections)@ == old(connections)@.push(connection)
                && action_views(actions@) == seq![ActionView::Listen { id: connection.id@ }],
            Err(_) => final(connections)@ == old(connections)@ && actions@.len() == 0,
        },
{
    let mut actions: Vec<Action> = Vec::new();
    match made {
        Ok(connection) => {
            actions.push(connection.listen());
            connections.push(connection);
            assert(action_views(actions@) =~= seq![
                ActionView::Listen { id: connections@.last().id@ },
            ]);
        },
        Err(_) => {},
    }
    actions
}

/// What follows a request to subscribe, given what adding the pattern to
/// the subscriptions of the connection gave.
pub open spec fn subscribe_reply(to: Seq<u8>, accepted: bool, actions: Seq<ActionView>) -> bool {
    if accepted {
        actions == seq![ActionView::Reply { to, packet: PacketView::Okay }]
    } else {
        exists|message: Seq<char>|
            actions == seq![
                ActionView::Reply {
                    to,
                    packet: #[trigger] error_packet(PACKET_SUBSCRIPTION_ERR, message),
                },
            ]
    }
}

/// A connection asks to subscribe to a pattern: the pattern is added to
/// its subscriptions and the connection is told so, or it is told why the
/// pattern was refused, and its subscriptions stay as they were.
pub(crate) fn handle_subscribe(
    connections: &mut Vec<Connection>,
    index: usize,
    pattern: &StringKey,
) -> (actions: Vec<Action>)
    requires
        index < old(connections)@.len(),
    ensures
        final(connections)@.len() == old(connections)@.len(),
        forall|j: int|
            0 <= j < old(connections)@.len() && j != index ==> final(connections)@[j]
                == old(connections)@[j],
        final(connections)@[index as int].id == old(connections)@[index as int].id,
        final(connections)@[index as int].address == old(connections)@[index as int].address,
        final(connections)@[index as int].raw_schema == old(connections)@[index as int].raw_schema,
        ({
            let before = old(connections)@[index as int].subscriptions@;
            let wanted = with_pattern(before, pattern@);
            &&& final(connections)@[index as int].subscriptions@ == if compiles(wanted) {
                wanted
            } else {
                before
            }
            &&& subscribe_reply(
                old(connections)@[index as int].id@,
                compiles(wanted),
                action_views(actions@),
            )
        }),
{
    let mut actions: Vec<Action> = Vec::new();
    let done = connections[index].subscribe(pattern.as_str());
    let connection = &connections[index];
    match done {
        Ok(()) => {
            actions.push(connection.send_ok());
            assert(action_views(actions@) =~= seq![
                ActionView::Reply { to: connection.id@, packet: PacketView::Okay },
            ]);
        },
        Err(e) => {
            actions.push(connection.send_err(PACKET_SUBSCRIPTION_ERR, e.message.as_str()));
            assert(action_views(actions@) =~= seq![
                ActionView::Reply {
                    to: connection.id@,
                    packet: error_packet(PACKET_SUBSCRIPTION_ERR, e.message@),
                },
            ]);
        },
    }
    actions
}

/// The schema fragments of the connections that submitted one, in the
/// order of the table.
pub fn collect_fragments(connections: &Vec<Connection>) -> (collected: Vec<String>)
    ensures
        crate::subscription::texts(collected@) == fragments(connections@),
{
    let mut collected: Vec<String> = Vec::new();
    let mut i: usize = 0;
    proof {
        assert(crate::subscription::texts(collected@) =~= fragments(connections@.subrange(0, 0)));
    }
    while i < connections.len()
        invariant
            i <= connections@.len(),
            crate::subscription::texts(collected@) == fragments(connections@.subrange(0, i as int)),
        decreases connections@.len() - i,
    {
        let ghost before = crate::subscription::texts(collected@);
        proof {
            let longer = connections@.subrange(0, i + 1);
            assert(longer.drop_last() =~= connections@.subrange(0, i as int));
            assert(longer.last() == connections@[i as int]);
        }
        match connections[i].get_schema() {
            Some(fragment) => {
                collected.push(fragment.clone());
                assert(crate::subscription::texts(collected@) =~= before.push(fragment@));
            },
            None => {},
        }
        i = i + 1;
    }
    proof {
        assert(connections@.subrange(0, i as int) =~= connections@);
    }
    collected
}

/// The text that the fragments of the connections make, as the bytes that
/// are parsed.
pub open spec fn schema_text(connections: Seq<Connection>) -> Seq<u8> {
    vstd::utf8::encode_utf8(joined(fragments(connections)))
}

/// What follows the registration of a schema fragment, given what
/// building the schema gave.
pub open spec fn register_reply(
    to: Seq<u8>,
    built: Result<(), ParseError>,
    actions: Seq<ActionView>,
) -> bool {
    match built {
        Ok(()) => actions == seq![ActionView::Reply { to, packet: PacketView::Okay }],
        Err(e) => actions == seq![
            ActionView::Reply { to, packet: error_packet(PACKET_SCHEMA_ERR, e.text()) },
        ],
    }
}

/// A connection submits a schema fragment: the fragment is noted as the
/// connection's own, and the schema is built anew from the fragments of
/// all connections. Where the fragments together are refused, the schema
/// in force stays as it is, and the connection is told why.
pub(crate) fn handle_register_schema<TStore: Store<StringKey>>(
    store: &mut ValueStore<TStore>,
    connections: &mut Vec<Connection>,
    index: usize,
    schema: String,
) -> (actions: Vec<Action>)
    requires
        old(store).wf(),
        index < old(connections)@.len(),
    ensures
        final(store).wf(),
        final(store).requests() == old(store).requests(),
        final(connections)@.len() == old(connections)@.len(),
        forall|j: int|
            0 <= j < old(connections)@.len() && j != index ==> final(connections)@[j]
                == old(connections)@[j],
        final(connections)@[index as int].id == old(connections)@[index as int].id,
        final(connections)@[index as int].address == old(connections)@[index as int].address,
        final(connections)@[index as int].subscriptions
            == old(connections)@[index as int].subscriptions,
        final(connections)@[index as int].raw_schema == Some(schema),
        exists|built: Result<(), ParseError>|
            {
                &&& #[trigger] register_reply(
                    old(connections)@[index as int].id@,
                    built,
                    action_views(actions@),
                )
                &&& match built {
                    Ok(()) => declares_facts(
                        schema_text(final(connections)@),
                        final(store).spec_schema()@,
                    ),
                    Err(e) => is_refused(schema_text(final(connections)@), e)
                        && final(store).spec_schema() == old(store).spec_schema(),
                }
            },
{
    let mut actions: Vec<Action> = Vec::new();
    connections[index].set_schema(schema);
    let collected = collect_fragments(connections);
    let built = store.build_schema(&collected);
    let connection = &connections[index];
    match &built {
        Ok(()) => {
            actions.push(connection.send_ok());
            assert(action_views(actions@) =~= seq![
                ActionView::Reply { to: connection.id@, packet: PacketView::Okay },
            ]);
        },
        Err(e) => {
            let message = e.message();
            actions.push(connection.send_err(PACKET_SCHEMA_ERR, message.as_str()));
            assert(action_views(actions@) =~= seq![
                ActionView::Reply {
                    to: connection.id@,
                    packet: error_packet(PACKET_SCHEMA_ERR, e.text()),
                },
            ]);
        },
    }
    assert(register_reply(old(connections)@[index as int].id@, built, action_views(actions@)));
    actions
}

/// What follows an update, given what became of it: the connection is
/// told that it was accepted, and the new value of the point is announced;
/// or the connection is told why it was refused.
pub open spec fn update_actions(
    to: Seq<u8>,
    key: Seq<char>,
    outcome: Result<ValueView, Seq<char>>,
) -> Seq<ActionView> {
    match outcome {
        Ok(new_value) => seq![
            ActionView::Reply { to, packet: PacketView::Okay },
            ActionView::Emit { event: EventView::PointUpdate { id: key, new_value } },
        ],
        Err(message) => seq![
            ActionView::Reply { to, packet: error_packet(PACKET_UPDATE_ERR, message) },
        ],
    }
}

/// What an outcome of an update is to mathematics.
pub open spec fn outcome_view(outcome: Result<Value, UpdateError>) -> Result<ValueView, Seq<char>> {
    match outcome {
        Ok(value) => Ok(value@),
        Err(e) => Err(e.text()),
    }
}

/// The actions that follow an update, given what became of it.
pub fn answer_update(
    connection: &Connection,
    key: StringKey,
    outcome: Result<Value, UpdateError>,
) -> (actions: Vec<Action>)
    ensures
        action_views(actions@) == update_actions(connection.id@, key@, outcome_view(outcome)),
{
    let mut actions: Vec<Action> = Vec::new();
    let ghost wanted = update_actions(connection.id@, key@, outcome_view(outcome));
    match outcome {
        Ok(new_value) => {
            actions.push(connection.send_ok());
            actions.push(Action::Emit { event: Event::PointUpdate { id: key, new_value } });
            assert(action_views(actions@) =~= wanted);
        },
        Err(e) => {
            let message = e.message();
            actions.push(connection.send_err(PACKET_UPDATE_ERR, message.as_str()));
            assert(action_views(actions@) =~= wanted);
        },
    }
    actions
}

/// What follows an update of a point from a connection: an update that
/// the schema refuses is answered with the reason; one that it accepts is
/// handed to the backend, and answered according to what became of it
/// there.
pub open spec fn update_reply(
    to: Seq<u8>,
    refusal: Option<UpdateError>,
    key: Seq<char>,
    new_value: ValueView,
    actions: Seq<ActionView>,
) -> bool {
    match refusal {
        Some(e) => actions == update_actions(to, key, Err(e.text())),
        None => actions == update_actions(to, key, Ok(new_value)) || exists|message: Seq<char>|
            actions == #[trigger] update_actions(to, key, Err(message)),
    }
}

/// A connection updates a point: the update is checked against the schema
/// in force; an accepted value is kept, the connection is told, and the
/// new value is announced to the broker.
pub fn handle_update<TStore: Store<StringKey>>(
    store: &mut ValueStore<TStore>,
    connection: &Connection,
    key: StringKey,
    new_value: Value,
) -> (actions: Vec<Action>)
    requires
        old(store).wf(),
    ensures
        final(store).wf(),
        final(store).spec_schema() == old(store).spec_schema(),
        update_reply(
            connection.id@,
            check(old(store).spec_schema()@, key@, new_value@),
            key@,
            new_value@,
            action_views(actions@),
        ),
        final(store).requests() == requests_after(
            old(store).requests(),
            check(old(store).spec_schema()@, key@, new_value@),
            key.bytes(),
            new_value@,
            action_views(actions@) == update_actions(connection.id@, key@, Ok(new_value@)),
        ),
{
    let outcome = store.update_point(&key, new_value);
    let ghost came = outcome;
    let ghost name = key@;
    let actions = answer_update(connection, key, outcome);
    proof {
        match came {
            Ok(_) => {},
            Err(UpdateError::Store(e)) => {
                assert(action_views(actions@) == update_actions(
                    connection.id@,
                    name,
                    Err(e.message@),
                ));
            },
            Err(_) => {},
        }
    }
    actions
}

/// What a packet from a connection does, the connection being at the
/// given place of the table.
pub open spec fn packet_outcome<TStore: Store<StringKey>>(
    store: ValueStore<TStore>,
    connections: Seq<Connection>,
    index: int,
    packet: Packet<StringKey>,
    after_store: ValueStore<TStore>,
    after: Seq<Connection>,
    actions: Seq<ActionView>,
) -> bool {
    let me = connections[index];
    &&& after.len() == connections.len()
    &&& forall|j: int| 0 <= j < connections.len() && j != index ==> after[j] == connections[j]
    &&& after[index].id == me.id
    &&& after[index].address == me.address
    &&& match packet {
        Packet::Subscribe { id } => {
            let wanted = with_pattern(me.subscriptions@, id@);
            &&& after_store.spec_schema() == store.spec_schema()
            &&& after_store.requests() == store.requests()
            &&& after[index].raw_schema == me.raw_schema
            &&& after[index].subscriptions@ == if compiles(wanted) {
                wanted
            } else {
                me.subscriptions@
            }
            &&& subscribe_reply(me.id@, compiles(wanted), actions)
        },
        Packet::RegisterSchema { schema: Value::String(fragment) } => {
            &&& after_store.requests() == store.requests()
            &&& after[index].subscriptions == me.subscriptions
            &&& after[index].raw_schema == Some(fragment)
            &&& exists|built: Result<(), ParseError>|
                {
                    &&& #[trigger] register_reply(me.id@, built, actions)
                    &&& match built {
                        Ok(()) => declares_facts(schema_text(after), after_store.spec_schema()@),
                        Err(e) => is_refused(schema_text(after), e) && after_store.spec_schema()
                            == store.spec_schema(),
                    }
                }
        },
        Packet::RegisterSchema { schema } => {
            &&& after_store.spec_schema() == store.spec_schema()
            &&& after_store.requests() == store.requests()
            &&& after[index] == me
            &&& actions == seq![
                ActionView::Reply {
                    to: me.id@,
                    packet: error_packet(PACKET_SCHEMA_ERR, "Invalid schema-type"@),
                },
            ]
        },
        Packet::Update { id, new_value } => {
            &&& after_store.spec_schema() == store.spec_schema()
            &&& after[index] == me
            &&& update_reply(
                me.id@,
                check(store.spec_schema()@, id@, new_value@),
                id@,
                new_value@,
                actions,
            )
            &&& after_store.requests() == requests_after(
                store.requests(),
                check(store.spec_schema()@, id@, new_value@),
                id.bytes(),
                new_value@,
                actions == update_actions(me.id@, id@, Ok(new_value@)),
            )
        },
        Packet::Error { .. } => {
            &&& after_store.spec_schema() == store.spec_schema()
            &&& after_store.requests() == store.requests()
            &&& after[index] == me
            &&& actions == seq![
                ActionView::Emit {
                    event: EventView::ConnectionError {
                        from: me.id@,
                        kind: ConnectionErrorKind::Aborted,
                    },
                },
            ]
        },
        Packet::List { .. } | Packet::Okay {  } => {
            &&& after_store.spec_schema() == store.spec_schema()
            &&& after_store.requests() == store.requests()
            &&& after[index] == me
            &&& actions.len() == 0
        },
    }
}

/// A connection sent a packet. A packet from a connection that is not in
/// the table is passed over; otherwise the packet does what
/// `packet_outcome` says, to the first connection of that id.
pub fn handle_packet<TStore: Store<StringKey>>(
    store: &mut ValueStore<TStore>,
    connections: &mut Vec<Connection>,
    id: ConnectionId,
    packet: Packet<StringKey>,
) -> (actions: Vec<Action>)
    requires
        old(store).wf(),
    ensures
        final(store).wf(),
        match index_of(old(connections)@, id@) {
            None => actions@.len() == 0 && final(connections)@ == old(connections)@
                && final(store).spec_schema() == old(store).spec_schema()
                && final(store).requests() == old(store).requests(),
            Some(index) => packet_outcome(
                *old(store),
                old(connections)@,
                index,
                packet,
                *final(store),
                final(connections)@,
                action_views(actions@),
            ),
        },
{
    let index = match find_connection(connections, &id) {
        Some(index) => index,
        None => {
            return Vec::new();
        },
    };
    match packet {
        Packet::Subscribe { id: pattern } => handle_subscribe(connections, index, &pattern),
        Packet::RegisterSchema { schema } => match schema {
            Value::String(fragment) => handle_register_schema(store, connections, index, fragment),
            _ => {
                let mut actions: Vec<Action> = Vec::new();
                actions.push(connections[index].send_err(PACKET_SCHEMA_ERR, "Invalid schema-type"));
                assert(action_views(actions@) =~= seq![
                    ActionView::Reply {
                        to: connections@[index as int].id@,
                        packet: error_packet(PACKET_SCHEMA_ERR, "Invalid schema-type"@),
                    },
                ]);
                actions
            },
        },
        Packet::Update { id: key, new_value } => handle_update(
            store,
            &connections[index],
            key,
            new_value,
        ),
        Packet::Error { .. } => {
            let mut actions: Vec<Action> = Vec::new();
            actions.push(
                Action::Emit {
                    event: Event::ConnectionError {
                        from: connections[index].id,
                        kind: ConnectionErrorKind::Aborted,
                    },
                },
            );
            assert(action_views(actions@) =~= seq![
                ActionView::Emit {
                    event: EventView::ConnectionError {
                        from: connections@[index as int].id@,
                        kind: ConnectionErrorKind::Aborted,
                    },
                },
            ]);
            actions
        },
        Packet::List { .. } | Packet::Okay {  } => Vec::new(),
    }
}

/// A connection failed. Where the failure is a reset, an abort, a refusal
/// or the end of the stream, the first connection of that id leaves the
/// table, and its stream is to be closed; any other failure is passed over.
pub fn connection_error(
    connections: &mut Vec<Connection>,
    id: ConnectionId,
    kind: ConnectionErrorKind,
) -> (actions: Vec<Action>)
    ensures
        match index_of(old(connections)@, id@) {
            Some(index) if removes(kind) => final(connections)@ == old(connections)@.remove(index)
                && action_views(actions@) == seq![ActionView::Close { id: id@ }],
            _ => final(connections)@ == old(connections)@ && actions@.len() == 0,
        },
{
    let mut actions: Vec<Action> = Vec::new();
    let gone = match kind {
        ConnectionErrorKind::Reset
        | ConnectionErrorKind::Aborted
        | ConnectionErrorKind::Refused
        | ConnectionErrorKind::Eof => true,
        _ => false,
    };
    if gone {
        match find_connection(connections, &id) {
            Some(index) => {
                connections.remove(index);
                actions.push(Action::Close { id });
                assert(action_views(actions@) =~= seq![ActionView::Close { id: id@ }]);
            },
            None => {},
        }
    }
    actions
}

/// The packet that announces a new value of a point to a subscriber.
pub open spec fn update_packet(id: StringKey, new_value: ValueView) -> PacketView {
    PacketView::Update { id: id.bytes(), new_value }
}

/// A point has a new value: the update is delivered to every connection
/// whose subscriptions match the name of the point, once to each, in the
/// order of the table. The connection that sent the update is not left out.
pub fn point_update(connections: &Vec<Connection>, id: &StringKey, new_value: &Value) -> (actions:
    Vec<Action>)
    ensures
        action_views(actions@) == fan_out(connections@, id@, update_packet(*id, new_value@)),
{
    let mut actions: Vec<Action> = Vec::new();
    let mut i: usize = 0;
    let ghost update = update_packet(*id, new_value@);
    proof {
        assert(action_views(actions@) =~= fan_out(connections@.subrange(0, 0), id@, update));
    }
    while i < connections.len()
        invariant
            i <= connections@.len(),
            update == update_packet(*id, new_value@),
            action_views(actions@) == fan_out(connections@.subrange(0, i as int), id@, update),
        decreases connections@.len() - i,
    {
        let connection = &connections[i];
        let ghost before = action_views(actions@);
        proof {
            let longer = connections@.subrange(0, i + 1);
            assert(longer.drop_last() =~= connections@.subrange(0, i as int));
            assert(longer.last() == *connection);
        }
        if connection.subscription_set().matches(id.as_str()) {
            let packet = Packet::Update { id: id.duplicate(), new_value: new_value.duplicate() };
            actions.push(Action::Forward { to: connection.id, packet });
            assert(action_views(actions@) =~= before.push(
                ActionView::Forward { to: connection.id@, packet: update },
            ));
        }
        i = i + 1;
    }
    proof {
        assert(connections@.subrange(0, i as int) =~= connections@);
    }
    actions
}

/// The listener failed: nothing is to be done.
pub fn server_error(message: &str) -> (actions: Vec<Action>)
    ensures
        actions@.len() == 0,
{
    Vec::new()
}

} // verus!
