//! The broker: the table of connections and the value store, and the one
//! step that handles an event. Events are handled one at a time, in the
//! order in which they arrive; what is to be done about each leaves the
//! step as a list of actions, to be carried out in order.

use crate::connection::{action_views, removes, Action, ActionView, Connection, Event};
use crate::event_handlers::{
    connection_error, fan_out, handle_new_connection, handle_packet, index_of, lemma_index_of,
    packet_outcome, point_update, register_reply, server_error, subscribe_reply, update_packet,
    update_reply,
};
use crate::key::StringKey;
use crate::packet::{Packet, PacketView};
use crate::store::{Store, ValueStore};
use crate::syntax::ParseError;
use crate::value::Value;
use vstd::prelude::*;

verus! {

/// The broker's state.
pub struct Server<TStore: Store<StringKey>> {
    pub connections: Vec<Connection>,
    pub store: ValueStore<TStore>,
}

/// The connection that an event comes from, where it is a packet.
pub open spec fn origin(event: Event) -> Option<Seq<u8>> {
    match event {
        Event::Packet { from, .. } => Some(from@),
        _ => None,
    }
}

/// Whether every reply among the actions goes to the given connection, and
/// there is at most one.
pub open spec fn replies_go_to(actions: Seq<ActionView>, origin: Option<Seq<u8>>) -> bool {
    &&& forall|k: int|
        0 <= k < actions.len() ==> ((#[trigger] actions[k]) matches ActionView::Reply { to, .. }
            ==> origin == Some(to))
    &&& forall|j: int, k: int|
        0 <= j < k < actions.len() ==> !((#[trigger] actions[j]) is Reply && (
        #[trigger] actions[k]) is Reply)
}

/// What an event does to the broker.
pub open spec fn step_outcome<TStore: Store<StringKey>>(
    before: Server<TStore>,
    event: Event,
    after: Server<TStore>,
    actions: Seq<ActionView>,
) -> bool {
    match event {
        Event::Connection { address } => {
            &&& after.store.spec_schema() == before.store.spec_schema()
            &&& after.store.requests() == before.store.requests()
            &&& actions.len() <= 1
            &&& actions.len() == 0 ==> after.connections@ == before.connections@
            &&& actions.len() == 1 ==> {
                &&& after.connections@.len() == before.connections@.len() + 1
                &&& after.connections@.drop_last() == before.connections@
                &&& after.connections@.last().address == address
                &&& after.connections@.last().subscriptions@.len() == 0
                &&& after.connections@.last().raw_schema is None
                &&& actions[0] == (ActionView::Listen { id: after.connections@.last().id@ })
            }
        },
        Event::Packet { from, packet } => match index_of(before.connections@, from@) {
            None => actions.len() == 0 && after.connections@ == before.connections@
                && after.store.spec_schema() == before.store.spec_schema()
                && after.store.requests() == before.store.requests(),
            Some(index) => packet_outcome(
                before.store,
                before.connections@,
                index,
                packet,
                after.store,
                after.connections@,
                actions,
            ),
        },
        Event::ConnectionError { from, kind } => {
            &&& after.store.spec_schema() == before.store.spec_schema()
            &&& after.store.requests() == before.store.requests()
            &&& match index_of(before.connections@, from@) {
                Some(index) if removes(kind) => after.connections@ == before.connections@.remove(
                    index,
                ) && actions == seq![ActionView::Close { id: from@ }],
                _ => after.connections@ == before.connections@ && actions.len() == 0,
            }
        },
        Event::ServerError { .. } => {
            &&& after.store.spec_schema() == before.store.spec_schema()
            &&& after.store.requests() == before.store.requests()
            &&& after.connections@ == before.connections@
            &&& actions.len() == 0
        },
        Event::PointUpdate { id, new_value } => {
            &&& after.store.spec_schema() == before.store.spec_schema()
            &&& after.store.requests() == before.store.requests()
            &&& after.connections@ == before.connections@
            &&& actions == fan_out(before.connections@, id@, update_packet(id, new_value@))
        },
    }
}

impl<TStore: Store<StringKey>> Server<TStore> {
    /// Whether the broker's state is well formed: its value store is.
    pub open spec fn wf(&self) -> bool {
        self.store.wf()
    }

    /// A broker over the given backend, without connections and with the
    /// empty schema in force.
    pub fn new(store: TStore) -> (server: Self)
        ensures
            server.wf(),
            server.connections@.len() == 0,
            server.store.spec_schema()@ == Set::<crate::schema::Fact>::empty(),
    {
        Server { connections: Vec::new(), store: ValueStore::new(store) }
    }

    /// Handles one event: the state changes and the actions follow as
    /// `step_outcome` says. Every reply among the actions goes to the
    /// connection that the event came from, and there is at most one.
    pub fn step(&mut self, event: Event) -> (actions: Vec<Action>)
        requires
            old(self).wf(),
        ensures
            final(self).wf(),
            step_outcome(*old(self), event, *final(self), action_views(actions@)),
            replies_go_to(action_views(actions@), origin(event)),
    {
        match event {
            Event::Connection { address } => {
                let actions = handle_new_connection(&mut self.connections, address);
                assert(actions@.len() == 1 ==> action_views(actions@)[0] == actions@[0]@);
                actions
            },
            Event::Packet { from, packet } => {
                let actions = handle_packet(&mut self.store, &mut self.connections, from, packet);
                proof {
                    lemma_replies_of_packet(
                        old(self).store,
                        old(self).connections@,
                        from@,
                        packet,
                        self.store,
                        self.connections@,
                        action_views(actions@),
                    );
                }
                actions
            },
            Event::ConnectionError { from, kind } => connection_error(
                &mut self.connections,
                from,
                kind,
            ),
            Event::ServerError { message } => server_error(message.as_str()),
            Event::PointUpdate { id, new_value } => {
                let actions = point_update(&self.connections, &id, &new_value);
                proof {
                    lemma_fan_out_has_no_reply(
                        self.connections@,
                        id@,
                        update_packet(id, new_value@),
                    );
                }
                actions
            },
        }
    }
}

/// Whether states and steps trace a run of the broker over events: each
/// event takes the broker from one state to the next as `step_outcome`
/// says, and the replies among the actions of each step go to the
/// connection that its event came from.
pub open spec fn is_run<TStore: Store<StringKey>>(
    events: Seq<Event>,
    states: Seq<Server<TStore>>,
    steps: Seq<StepView>,
) -> bool {
    &&& states.len() == events.len() + 1
    &&& steps.len() == events.len()
    &&& forall|i: int|
        0 <= i < events.len() ==> {
            &&& (#[trigger] steps[i]).origin == origin(events[i])
            &&& step_outcome(states[i], events[i], states[i + 1], steps[i].actions)
            &&& replies_go_to(steps[i].actions, steps[i].origin)
        }
}

impl<TStore: Store<StringKey>> Server<TStore> {
    /// Handles events one after the other, in their order. The actions
    /// that follow each event are gathered in that order; so the replies
    /// to a connection come in the order in which its packets arrived.
    pub fn run(&mut self, events: Vec<Event>) -> (actions: Vec<Action>)
        requires
            old(self).wf(),
        ensures
            final(self).wf(),
            exists|states: Seq<Server<TStore>>, steps: Seq<StepView>|
                {
                    &&& #[trigger] is_run(events@, states, steps)
                    &&& states[0] == *old(self)
                    &&& states[events@.len() as int] == *final(self)
                    &&& action_views(actions@) == run_actions(steps)
                    &&& forall|connection: Seq<u8>|
                        replies_to(action_views(actions@), connection)
                            == #[trigger] replies_in_arrival_order(steps, connection)
                },
    {
        let mut rest = events;
        let mut actions: Vec<Action> = Vec::new();
        let ghost mut states: Seq<Server<TStore>> = seq![*self];
        let ghost mut steps: Seq<StepView> = Seq::empty();
        let ghost mut done: Seq<Event> = Seq::empty();
        proof {
            assert(done + rest@ =~= events@);
            assert(action_views(actions@) =~= run_actions(steps));
        }
        while rest.len() > 0
            invariant
                self.wf(),
                done + rest@ == events@,
                is_run(done, states, steps),
                states[0] == *old(self),
                states[done.len() as int] == *self,
                action_views(actions@) == run_actions(steps),
            decreases rest@.len(),
        {
            let ghost before = *self;
            let ghost gathered = action_views(actions@);
            let ghost waiting = rest@;
            let event = rest.remove(0);
            let mut more = self.step(event);
            let ghost step = StepView { origin: origin(event), actions: action_views(more@) };
            let ghost grown = action_views(more@);
            actions.append(&mut more);
            proof {
                let longer = done.push(event);
                let states_now = states.push(*self);
                let steps_now = steps.push(step);
                assert(longer + rest@ =~= events@);
                assert(steps_now.drop_last() =~= steps);
                assert(action_views(actions@) =~= gathered + grown);
                assert forall|i: int| 0 <= i < longer.len() implies {
                    &&& (#[trigger] steps_now[i]).origin == origin(longer[i])
                    &&& step_outcome(states_now[i], longer[i], states_now[i + 1],
                        steps_now[i].actions)
                    &&& replies_go_to(steps_now[i].actions, steps_now[i].origin)
                } by {
                    if i < done.len() {
                        assert(steps_now[i] == steps[i]);
                        assert(states_now[i] == states[i]);
                        assert(states_now[i + 1] == states[i + 1]);
                        assert(longer[i] == done[i]);
                    }
                }
                done = longer;
                states = states_now;
                steps = steps_now;
            }
        }
        proof {
            assert(done =~= events@);
            assert forall|connection: Seq<u8>|
                replies_to(action_views(actions@), connection)
                    == #[trigger] replies_in_arrival_order(steps, connection) by {
                lemma_replies_keep_order(steps, connection);
            }
            assert(is_run(events@, states, steps));
        }
        actions
    }
}

/// The deliveries of an update hold no reply.
pub proof fn lemma_fan_out_has_no_reply(
    connections: Seq<Connection>,
    id: Seq<char>,
    update: PacketView,
)
    ensures
        forall|k: int|
            0 <= k < fan_out(connections, id, update).len() ==> (#[trigger] fan_out(
                connections,
                id,
                update,
            )[k]) is Forward,
    decreases connections.len(),
{
    if connections.len() > 0 {
        lemma_fan_out_has_no_reply(connections.drop_last(), id, update);
    }
}

/// What a packet brings about holds at most one reply, and that reply goes
/// to the connection that sent the packet.
pub proof fn lemma_replies_of_packet<TStore: Store<StringKey>>(
    store: ValueStore<TStore>,
    connections: Seq<Connection>,
    from: Seq<u8>,
    packet: Packet<StringKey>,
    after_store: ValueStore<TStore>,
    after: Seq<Connection>,
    actions: Seq<ActionView>,
)
    requires
        match index_of(connections, from) {
            None => actions.len() == 0,
            Some(index) => packet_outcome(
                store,
                connections,
                index,
                packet,
                after_store,
                after,
                actions,
            ),
        },
    ensures
        replies_go_to(actions, Some(from)),
{
    lemma_index_of(connections, from);
    match index_of(connections, from) {
        None => {},
        Some(index) => {
            let me = connections[index];
            match packet {
                Packet::Subscribe { id } => {
                    let wanted = crate::subscription::with_pattern(me.subscriptions@, id@);
                    assert(subscribe_reply(
                        me.id@,
                        crate::subscription::compiles(wanted),
                        actions,
                    ));
                    assert(actions.len() == 1 && actions[0] is Reply);
                },
                Packet::RegisterSchema { schema: Value::String(fragment) } => {
                    let built = choose|built: Result<(), ParseError>| #[trigger]
                        register_reply(me.id@, built, actions);
                    assert(actions.len() == 1 && actions[0] is Reply);
                },
                Packet::RegisterSchema { schema } => {},
                Packet::Update { id, new_value } => {
                    let refusal = crate::store::check(store.spec_schema()@, id@, new_value@);
                    assert(update_reply(me.id@, refusal, id@, new_value@, actions));
                    assert(actions.len() >= 1 && actions[0] is Reply);
                    assert(actions.len() <= 2);
                    assert(actions.len() == 2 ==> actions[1] is Emit);
                },
                Packet::Error { .. } => {},
                Packet::List { .. } | Packet::Okay {  } => {},
            }
        },
    }
}

/// One step of a run of the broker, as mathematics sees it: the connection
/// that the event came from, where it was a packet, and the actions that
/// followed.
pub struct StepView {
    pub origin: Option<Seq<u8>>,
    pub actions: Seq<ActionView>,
}

/// The actions of a run, in order.
pub open spec fn run_actions(steps: Seq<StepView>) -> Seq<ActionView>
    decreases steps.len(),
{
    if steps.len() == 0 {
        Seq::empty()
    } else {
        run_actions(steps.drop_last()) + steps.last().actions
    }
}

/// The replies to a connection among actions, in order.
pub open spec fn replies_to(actions: Seq<ActionView>, connection: Seq<u8>) -> Seq<PacketView>
    decreases actions.len(),
{
    if actions.len() == 0 {
        Seq::empty()
    } else {
        match actions.last() {
            ActionView::Reply { to, packet } if to == connection => replies_to(
                actions.drop_last(),
                connection,
            ).push(packet),
            _ => replies_to(actions.drop_last(), connection),
        }
    }
}

/// The replies to the packets of a connection, in the order in which the
/// packets arrived.
pub open spec fn replies_in_arrival_order(steps: Seq<StepView>, connection: Seq<u8>) -> Seq<
    PacketView,
>
    decreases steps.len(),
{
    if steps.len() == 0 {
        Seq::empty()
    } else if steps.last().origin == Some(connection) {
        replies_in_arrival_order(steps.drop_last(), connection) + replies_to(
            steps.last().actions,
            connection,
        )
    } else {
        replies_in_arrival_order(steps.drop_last(), connection)
    }
}

/// The replies among actions that follow one another are the replies among
/// the first, then those among the second.
pub proof fn lemma_replies_concat(
    first: Seq<ActionView>,
    second: Seq<ActionView>,
    connection: Seq<u8>,
)
    ensures
        replies_to(first + second, connection) == replies_to(first, connection) + replies_to(
            second,
            connection,
        ),
    decreases second.len(),
{
    if second.len() == 0 {
        assert(first + second =~= first);
    } else {
        assert((first + second).drop_last() =~= first + second.drop_last());
        assert((first + second).last() == second.last());
        lemma_replies_concat(first, second.drop_last(), connection);
        assert(replies_to(first + second, connection) =~= replies_to(first, connection)
            + replies_to(second, connection));
    }
}

/// Actions without a reply to a connection hold no reply to it.
pub proof fn lemma_no_replies(
    actions: Seq<ActionView>,
    origin: Option<Seq<u8>>,
    connection: Seq<u8>,
)
    requires
        replies_go_to(actions, origin),
        origin != Some(connection),
    ensures
        replies_to(actions, connection).len() == 0,
    decreases actions.len(),
{
    if actions.len() > 0 {
        let shorter = actions.drop_last();
        assert(replies_go_to(shorter, origin)) by {
            assert forall|k: int| 0 <= k < shorter.len() implies ((#[trigger] shorter[k]) matches
                ActionView::Reply { to, .. }
                ==> origin == Some(to)) by {
                assert(shorter[k] == actions[k]);
            }
            assert forall|j: int, k: int| 0 <= j < k < shorter.len() implies !((
            #[trigger] shorter[j]) is Reply && (#[trigger] shorter[k]) is Reply) by {
                assert(shorter[j] == actions[j]);
                assert(shorter[k] == actions[k]);
            }
        }
        lemma_no_replies(shorter, origin, connection);
        assert(actions.last() == actions[actions.len() - 1]);
    }
}

/// Replies keep the order of the requests: in a run of steps in which
/// every reply goes to the connection that the step's event came from, the
/// replies to a connection, in the order in which they are to be written,
/// are the replies to its packets in the order in which those arrived.
pub proof fn lemma_replies_keep_order(steps: Seq<StepView>, connection: Seq<u8>)
    requires
        forall|i: int|
            0 <= i < steps.len() ==> replies_go_to(
                (#[trigger] steps[i]).actions,
                steps[i].origin,
            ),
    ensures
        replies_to(run_actions(steps), connection) == replies_in_arrival_order(steps, connection),
    decreases steps.len(),
{
    if steps.len() > 0 {
        let shorter = steps.drop_last();
        assert forall|i: int| 0 <= i < shorter.len() implies replies_go_to(
            (#[trigger] shorter[i]).actions,
            shorter[i].origin,
        ) by {
            assert(shorter[i] == steps[i]);
        }
        lemma_replies_keep_order(shorter, connection);
        lemma_replies_concat(run_actions(shorter), steps.last().actions, connection);
        assert(steps.last() == steps[steps.len() - 1]);
        if steps.last().origin != Some(connection) {
            lemma_no_replies(steps.last().actions, steps.last().origin, connection);
            assert(replies_to(run_actions(steps), connection) =~= replies_in_arrival_order(
                steps,
                connection,
            ));
        }
    }
}

} // verus!
