use broker::connection::make_error;
use broker::{
    add_connection, connection_error, handle_new_connection, handle_packet, point_update,
    server_error, Action, Connection, ConnectionErrorKind, ConnectionId, Error, ErrorKind, Event,
    Key, MemoryStore, Packet, ReadStep, Server, Store, StringKey, Value, ValueStore,
    PACKET_SCHEMA_ERR, PACKET_SUBSCRIPTION_ERR, PACKET_UPDATE_ERR,
};

/// A backend that can be made to fail.
struct Backend {
    memory: MemoryStore,
    fail: bool,
}

impl Backend {
    fn new(fail: bool) -> Self {
        Backend { memory: MemoryStore::new(), fail }
    }
}

impl Store<StringKey> for Backend {
    fn store_value(&mut self, key: &StringKey, value: &Value) -> Result<(), Error> {
        if self.fail {
            return Err(Error::new("disk full"));
        }
        self.memory.put(key.as_slice(), value)
    }

    fn get_value(&mut self, key: &StringKey) -> Option<Value> {
        self.memory.get(key.as_slice())
    }
}

const SCHEMA: &str = "first_namespace {\n - some_value: i32 | u16\n}";

fn id(byte: u8) -> ConnectionId {
    ConnectionId::from_slice(&[byte; 8]).unwrap()
}

fn key(text: &str) -> StringKey {
    StringKey::new(text).unwrap()
}

fn text(text: &str) -> Value {
    Value::String(String::from(text))
}

fn ok(to: u8) -> Action {
    Action::Reply { to: id(to), packet: Packet::Okay {} }
}

fn refusal(to: u8, code: u32, message: &str) -> Action {
    Action::Reply { to: id(to), packet: make_error(code, message) }
}

fn broker(ids: &[u8]) -> Server<Backend> {
    let mut server = Server::new(Backend::new(false));
    for byte in ids {
        server
            .connections
            .push(Connection::with_id(id(*byte), format!("127.0.0.1:{}", 4000 + *byte as u32)));
    }
    server
}

fn send(server: &mut Server<Backend>, from: u8, packet: Packet<StringKey>) -> Vec<Action> {
    server.step(Event::Packet { from: id(from), packet })
}

fn register(server: &mut Server<Backend>, from: u8, schema: &str) -> Vec<Action> {
    send(server, from, Packet::RegisterSchema { schema: text(schema) })
}

fn update(server: &mut Server<Backend>, from: u8, point: &str, value: Value) -> Vec<Action> {
    send(server, from, Packet::Update { id: key(point), new_value: value })
}

#[test]
fn schema_then_update() {
    let mut server = broker(&[1]);
    assert_eq!(register(&mut server, 1, SCHEMA), vec![ok(1)]);
    let actions = update(&mut server, 1, "first_namespace/some_value", Value::I32(7));
    assert_eq!(
        actions,
        vec![
            ok(1),
            Action::Emit {
                event: Event::PointUpdate {
                    id: key("first_namespace/some_value"),
                    new_value: Value::I32(7),
                },
            },
        ]
    );
    assert_eq!(
        server.store.get_value(&key("first_namespace/some_value")),
        Some(Value::I32(7))
    );
}

#[test]
fn type_mismatch() {
    let mut server = broker(&[1]);
    register(&mut server, 1, SCHEMA);
    let actions = update(&mut server, 1, "first_namespace/some_value", text("x"));
    assert_eq!(actions, vec![refusal(1, PACKET_UPDATE_ERR, "invalid point-type")]);
    match &actions[0] {
        Action::Reply { packet: Packet::Error { value: Value::String(message) }, .. } => {
            assert!(message.contains("invalid point-type"));
            assert_eq!(message, "3: invalid point-type");
        }
        other => panic!("not an error: {:?}", other),
    }
    assert_eq!(server.store.get_value(&key("first_namespace/some_value")), None);
}

#[test]
fn unknown_point() {
    let mut server = broker(&[1]);
    register(&mut server, 1, SCHEMA);
    let actions = update(&mut server, 1, "first_namespace/missing", Value::I32(0));
    assert_eq!(actions, vec![refusal(1, PACKET_UPDATE_ERR, "invalid point")]);
    match &actions[0] {
        Action::Reply { packet: Packet::Error { value: Value::String(message) }, .. } => {
            assert!(message.contains("invalid point"));
        }
        other => panic!("not an error: {:?}", other),
    }
}

#[test]
fn subscribe_and_fan_out() {
    let mut server = broker(&[1, 2, 3]);
    assert_eq!(register(&mut server, 2, SCHEMA), vec![ok(2)]);
    assert_eq!(
        send(&mut server, 1, Packet::Subscribe { id: key("first_namespace/*") }),
        vec![ok(1)]
    );
    let actions = update(&mut server, 2, "first_namespace/some_value", Value::I32(42));
    assert_eq!(actions.len(), 2);
    assert_eq!(actions[0], ok(2));
    let event = match &actions[1] {
        Action::Emit { event } => event.clone(),
        other => panic!("not an event: {:?}", other),
    };
    let delivered = Packet::Update {
        id: key("first_namespace/some_value"),
        new_value: Value::I32(42),
    };
    assert_eq!(
        server.step(event.clone()),
        vec![Action::Forward { to: id(1), packet: delivered.clone() }]
    );
    // The sender is not left out once it subscribes too.
    assert_eq!(
        send(&mut server, 2, Packet::Subscribe { id: key("**") }),
        vec![ok(2)]
    );
    assert_eq!(
        server.step(event),
        vec![
            Action::Forward { to: id(1), packet: delivered.clone() },
            Action::Forward { to: id(2), packet: delivered },
        ]
    );
}

#[test]
fn case_insensitivity() {
    let mut server = broker(&[1]);
    assert_eq!(
        send(&mut server, 1, Packet::Subscribe { id: key("FIRST_NAMESPACE/*") }),
        vec![ok(1)]
    );
    assert_eq!(
        server.connections[0].subscription_set().patterns(),
        &vec![String::from("first_namespace/*")]
    );
    let actions = point_update(
        &server.connections,
        &key("first_namespace/some_value"),
        &Value::I32(1),
    );
    assert_eq!(actions.len(), 1);
    let mut loud = Connection::with_id(id(9), String::from("peer"));
    loud.subscribe("FIRST_NAMESPACE/*").unwrap();
    assert!(loud.subscription_set().matches("first_namespace/some_value"));
}

#[test]
fn malformed_frame() {
    assert!(matches!(
        Connection::read_step(&[0xfe]),
        ReadStep::Failed { error } if error.kind == ErrorKind::UnknownPacketTag
    ));
    let mut server = broker(&[1, 2]);
    let event = Connection::read_failed(server.connections[0].id);
    assert_eq!(
        event,
        Event::ConnectionError { from: id(1), kind: ConnectionErrorKind::Aborted }
    );
    assert_eq!(server.step(event), vec![Action::Close { id: id(1) }]);
    assert_eq!(server.connections.len(), 1);
    assert_eq!(server.connections[0].id, id(2));
    assert_eq!(register(&mut server, 2, SCHEMA), vec![ok(2)]);
}

#[test]
fn the_reader_asks_for_what_a_frame_still_needs() {
    let mut frame = Vec::new();
    Packet::Update { id: key("a/b"), new_value: text("hello") }
        .write_to(&mut frame)
        .unwrap();
    let mut buffer: Vec<u8> = Vec::new();
    let mut asked = Vec::new();
    let packet = loop {
        match Connection::read_step(&buffer) {
            ReadStep::Need { missing } => {
                asked.push(missing);
                let end = buffer.len() + missing as usize;
                buffer.extend_from_slice(&frame[buffer.len()..end]);
            }
            ReadStep::Done { packet } => break packet,
            ReadStep::Failed { error } => panic!("{:?}", error),
        }
    };
    assert_eq!(asked, vec![1, 1, 3, 1, 4, 5]);
    assert_eq!(buffer, frame);
    assert_eq!(packet, Packet::Update { id: key("a/b"), new_value: text("hello") });
    assert!(matches!(Connection::read_step(&[5, 5]), ReadStep::Failed { .. }));
    assert_eq!(Connection::read_step(&[5]), ReadStep::Done { packet: Packet::Okay {} });
}

#[test]
fn only_some_transport_errors_end_the_reading() {
    let ending = [
        ConnectionErrorKind::Reset,
        ConnectionErrorKind::Aborted,
        ConnectionErrorKind::Refused,
        ConnectionErrorKind::NotConnected,
        ConnectionErrorKind::Eof,
    ];
    for kind in ending {
        assert!(Connection::stops_reading(kind));
    }
    assert!(!Connection::stops_reading(ConnectionErrorKind::Other));
}

#[test]
fn a_refused_pattern_is_answered_with_the_reason() {
    let mut server = broker(&[1]);
    let actions = send(&mut server, 1, Packet::Subscribe { id: key("a/[b") });
    assert_eq!(actions.len(), 1);
    match &actions[0] {
        Action::Reply { to, packet: Packet::Error { value: Value::String(message) } } => {
            assert_eq!(*to, id(1));
            assert!(message.starts_with("1: "));
            assert!(message.len() > 3);
        }
        other => panic!("not an error: {:?}", other),
    }
    assert!(server.connections[0].subscription_set().patterns().is_empty());
    let reason = server.connections[0].subscribe("a/[b").unwrap_err().message;
    assert_eq!(actions, vec![refusal(1, PACKET_SUBSCRIPTION_ERR, &reason)]);
}

#[test]
fn a_refused_registration_leaves_the_schema_in_force() {
    let mut server = broker(&[1, 2]);
    assert_eq!(register(&mut server, 1, SCHEMA), vec![ok(1)]);
    let actions = register(&mut server, 2, "second {");
    assert_eq!(
        actions,
        vec![refusal(2, PACKET_SCHEMA_ERR, "Syntax error at position 56")]
    );
    assert!(server.store.query_single("first_namespace/some_value").is_some());
    assert_eq!(
        update(&mut server, 1, "first_namespace/some_value", Value::U16(1)).len(),
        2
    );
    // The fragment stays noted, so the next registration fails as well...
    assert_eq!(server.connections[1].get_schema(), &Some(String::from("second {")));
    assert_eq!(register(&mut server, 1, SCHEMA).len(), 1);
    assert!(server.store.query_single("first_namespace/some_value").is_some());
    // ... until the connection mends its fragment.
    assert_eq!(register(&mut server, 2, "second { - p: u8 }"), vec![ok(2)]);
    assert!(server.store.query_single("second/p").is_some());
    assert!(server.store.query_single("first_namespace/some_value").is_some());
}

#[test]
fn every_registration_builds_the_schema_from_all_fragments() {
    let mut server = broker(&[1, 2]);
    register(&mut server, 1, "a { - p: u8 }");
    register(&mut server, 2, "a { - p: u16 }");
    assert_eq!(
        update(&mut server, 2, "a/p", Value::U8(1))[0],
        ok(2)
    );
    assert_eq!(update(&mut server, 1, "a/p", Value::U16(1))[0], ok(1));
    register(&mut server, 1, "b { - q: u8 }");
    assert_eq!(
        update(&mut server, 1, "a/p", Value::U8(1)),
        vec![refusal(1, PACKET_UPDATE_ERR, "invalid point-type")]
    );
    assert_eq!(update(&mut server, 1, "b/q", Value::U8(1))[0], ok(1));
}

#[test]
fn a_schema_that_is_no_string_is_refused() {
    let mut server = broker(&[1]);
    let actions = send(&mut server, 1, Packet::RegisterSchema { schema: Value::U8(1) });
    assert_eq!(actions, vec![refusal(1, PACKET_SCHEMA_ERR, "Invalid schema-type")]);
    assert_eq!(server.connections[0].get_schema(), &None);
}

#[test]
fn a_failure_of_the_backend_is_answered_with_the_reason() {
    let mut server = broker(&[1]);
    server.store = ValueStore::new(Backend::new(true));
    register(&mut server, 1, SCHEMA);
    assert_eq!(
        update(&mut server, 1, "first_namespace/some_value", Value::I32(7)),
        vec![refusal(1, PACKET_UPDATE_ERR, "disk full")]
    );
}

#[test]
fn an_error_from_a_client_aborts_its_connection() {
    let mut server = broker(&[1, 2]);
    let actions = send(&mut server, 2, Packet::Error { value: text("bye") });
    assert_eq!(
        actions,
        vec![Action::Emit {
            event: Event::ConnectionError { from: id(2), kind: ConnectionErrorKind::Aborted },
        }]
    );
    assert_eq!(server.connections.len(), 2);
}

#[test]
fn list_and_ok_from_a_client_do_nothing() {
    let mut server = broker(&[1]);
    assert!(send(&mut server, 1, Packet::List { id: key("a") }).is_empty());
    assert!(send(&mut server, 1, Packet::Okay {}).is_empty());
}

#[test]
fn packets_from_unknown_connections_are_passed_over() {
    let mut server = broker(&[1]);
    assert!(register(&mut server, 7, SCHEMA).is_empty());
    assert!(server.store.query_single("first_namespace/some_value").is_none());
    assert!(send(&mut server, 7, Packet::Subscribe { id: key("*") }).is_empty());
    let mut store = ValueStore::new(Backend::new(false));
    let mut connections = Vec::new();
    assert!(handle_packet(&mut store, &mut connections, id(1), Packet::Okay {}).is_empty());
}

#[test]
fn transport_errors_remove_the_connection() {
    for kind in [
        ConnectionErrorKind::Reset,
        ConnectionErrorKind::Aborted,
        ConnectionErrorKind::Refused,
        ConnectionErrorKind::Eof,
    ] {
        let mut server = broker(&[1, 2, 3]);
        let actions = server.step(Event::ConnectionError { from: id(2), kind });
        assert_eq!(actions, vec![Action::Close { id: id(2) }]);
        let left: Vec<ConnectionId> = server.connections.iter().map(|c| c.id).collect();
        assert_eq!(left, vec![id(1), id(3)]);
    }
    for kind in [ConnectionErrorKind::NotConnected, ConnectionErrorKind::Other] {
        let mut server = broker(&[1, 2, 3]);
        assert!(server.step(Event::ConnectionError { from: id(2), kind }).is_empty());
        assert_eq!(server.connections.len(), 3);
    }
    let mut connections = vec![Connection::with_id(id(1), String::from("peer"))];
    assert!(connection_error(&mut connections, id(5), ConnectionErrorKind::Reset).is_empty());
    assert_eq!(connections.len(), 1);
}

#[test]
fn an_accepted_stream_becomes_a_connection() {
    let mut server = broker(&[]);
    let actions = server.step(Event::Connection { address: String::from("10.0.0.1:5555") });
    assert_eq!(server.connections.len(), 1);
    let made = &server.connections[0];
    assert_eq!(made.address, "10.0.0.1:5555");
    assert!(made.subscription_set().patterns().is_empty());
    assert_eq!(made.get_schema(), &None);
    assert_eq!(actions, vec![Action::Listen { id: made.id }]);
    let mut connections = Vec::new();
    handle_new_connection(&mut connections, String::from("a"));
    handle_new_connection(&mut connections, String::from("b"));
    assert_eq!(connections.len(), 2);
    assert_ne!(connections[0].id, connections[1].id);
}

#[test]
fn a_stream_without_a_connection_is_passed_over() {
    let mut connections = vec![Connection::with_id(id(1), String::from("first"))];
    let made = Connection::with_id(id(2), String::from("second"));
    assert_eq!(
        add_connection(&mut connections, Ok(made)),
        vec![Action::Listen { id: id(2) }]
    );
    assert_eq!(connections.len(), 2);
    assert_eq!(connections[1].id, id(2));
    assert_eq!(connections[1].address, "second");
    assert!(add_connection(&mut connections, Err(Error::new("no entropy"))).is_empty());
    assert_eq!(connections.len(), 2);
}

#[test]
fn a_failure_of_the_listener_does_nothing() {
    let mut server = broker(&[1]);
    assert!(server.step(Event::ServerError { message: String::from("accept failed") }).is_empty());
    assert!(server_error("accept failed").is_empty());
    assert_eq!(server.connections.len(), 1);
}

#[test]
fn replies_keep_the_order_of_the_requests() {
    let mut server = broker(&[1, 2]);
    let requests: Vec<(u8, Packet<StringKey>)> = vec![
        (1, Packet::RegisterSchema { schema: text(SCHEMA) }),
        (2, Packet::Update { id: key("first_namespace/missing"), new_value: Value::U8(0) }),
        (1, Packet::Subscribe { id: key("first_namespace/*") }),
        (1, Packet::Update { id: key("first_namespace/some_value"), new_value: Value::U16(3) }),
        (2, Packet::Subscribe { id: key("[") }),
        (1, Packet::Update { id: key("first_namespace/some_value"), new_value: text("no") }),
        (2, Packet::Update { id: key("first_namespace/some_value"), new_value: Value::I32(4) }),
    ];
    let mut written: Vec<(ConnectionId, Packet<StringKey>)> = Vec::new();
    for (from, packet) in requests {
        for action in send(&mut server, from, packet) {
            if let Action::Reply { to, packet } = action {
                assert_eq!(to, id(from));
                written.push((to, packet));
            }
        }
    }
    let kinds = |of: u8| -> Vec<u8> {
        written.iter().filter(|(to, _)| *to == id(of)).map(|(_, packet)| packet.tag()).collect()
    };
    assert_eq!(kinds(1), vec![5, 5, 5, 4]);
    assert_eq!(kinds(2), vec![4, 4, 5]);
}

#[test]
fn a_run_gathers_the_actions_of_its_steps_in_order() {
    let mut server = broker(&[1, 2]);
    let actions = server.run(vec![
        Event::Packet { from: id(1), packet: Packet::RegisterSchema { schema: text(SCHEMA) } },
        Event::Packet { from: id(2), packet: Packet::Subscribe { id: key("first_namespace/*") } },
        Event::Packet {
            from: id(1),
            packet: Packet::Update {
                id: key("first_namespace/some_value"),
                new_value: Value::I32(5),
            },
        },
        Event::PointUpdate { id: key("first_namespace/some_value"), new_value: Value::I32(5) },
        Event::ConnectionError { from: id(2), kind: ConnectionErrorKind::Reset },
    ]);
    let update = Packet::Update {
        id: key("first_namespace/some_value"),
        new_value: Value::I32(5),
    };
    assert_eq!(
        actions,
        vec![
            ok(1),
            ok(2),
            ok(1),
            Action::Emit {
                event: Event::PointUpdate {
                    id: key("first_namespace/some_value"),
                    new_value: Value::I32(5),
                },
            },
            Action::Forward { to: id(2), packet: update },
            Action::Close { id: id(2) },
        ]
    );
    assert_eq!(server.connections.len(), 1);
    assert!(server.run(vec![]).is_empty());
}

#[test]
fn only_a_failed_delivery_has_a_consequence() {
    let packet = Packet::Update { id: key("a/b"), new_value: Value::U8(1) };
    assert_eq!(
        Action::Forward { to: id(3), packet: packet.clone() }.failed(),
        Some(Event::ConnectionError { from: id(3), kind: ConnectionErrorKind::Aborted })
    );
    assert_eq!(Action::Reply { to: id(3), packet }.failed(), None);
    assert_eq!(Action::Listen { id: id(3) }.failed(), None);
    assert_eq!(Action::Close { id: id(3) }.failed(), None);
    assert_eq!(
        Action::Emit { event: Event::ServerError { message: String::new() } }.failed(),
        None
    );
}

#[test]
fn connection_helpers_address_the_connection() {
    let connection = Connection::with_id(id(4), String::from("peer"));
    assert_eq!(connection.send_ok(), ok(4));
    assert_eq!(connection.listen(), Action::Listen { id: id(4) });
    assert_eq!(
        connection.send_err(PACKET_UPDATE_ERR, "invalid point"),
        Action::Reply { to: id(4), packet: Packet::Error { value: text("3: invalid point") } }
    );
    assert_eq!(
        connection.write_packet(Packet::List { id: key("a") }),
        Action::Reply { to: id(4), packet: Packet::List { id: key("a") } }
    );
    assert_eq!(
        make_error(4_000_000_000, "big"),
        Packet::Error { value: text("4000000000: big") }
    );
    assert_eq!(make_error(0, ""), Packet::Error { value: text("0: ") });
    let made = Connection::new(String::from("peer")).unwrap();
    assert_eq!(made.id.as_slice().len(), 8);
    let mut connection = connection;
    connection.subscription_set_mut().insert_point("a/*").unwrap();
    assert!(connection.subscription_set().matches("a/b"));
    connection.set_schema(String::from("a { }"));
    assert_eq!(connection.get_schema(), &Some(String::from("a { }")));
}
