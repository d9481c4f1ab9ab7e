use broker::packet::{read_key, read_len_raw, write_key};
use broker::{ErrorKind, Key, Packet, RawKey, StringKey, Value};

fn encode(packet: &Packet<StringKey>) -> Vec<u8> {
    let mut target = Vec::new();
    packet.write_to(&mut target).unwrap();
    target
}

#[test]
fn packet_write_key_works() {
    let key = StringKey::new("test").unwrap();
    let mut target = Vec::new();

    write_key(&mut target, &key).unwrap();

    assert_eq!(&target[0..1], &[4]);
    assert_eq!(&target[1..5], String::from("test").as_bytes());
}

#[test]
fn packet_read_key_works() {
    let mut data = vec![4];

    for byte in String::from("test").as_bytes() {
        data.push(*byte);
    }

    let (key, used): (StringKey, usize) = read_key(&data).unwrap();

    assert_eq!(key.as_str(), String::from("test"));
    assert_eq!(used, 5);
}

#[test]
fn packet_serialize_subscribe_packet_works() {
    let packet = Packet::Subscribe {
        id: StringKey::new("pointid").unwrap(),
    };

    let mut target = Vec::new();

    packet.write_to(&mut target).unwrap();

    assert_eq!(target.len(), 9);

    assert_eq!(
        &target[0..9],
        &[
            1, // Packet-id,
            7, // id-length
            112, 111, 105, 110, 116, 105, 100, // "pointid"
        ]
    );
}

#[test]
fn packet_serialize_update_packet_works() {
    let packet = Packet::Update {
        id: StringKey::new("pointid").unwrap(),
        new_value: Value::I64(1234),
    };

    let mut target = Vec::new();

    packet.write_to(&mut target).unwrap();

    assert_eq!(target.len(), 18);

    assert_eq!(
        &target[0..18],
        &[
            2, // Packet-id,
            7, // id-length
            112, 111, 105, 110, 116, 105, 100, // "pointid"
            11,  // Value-id
            0, 0, 0, 0, 0, 0, 4, 210, // 1234 in i64
        ]
    );
}

#[test]
fn packet_deserialize_subscribe_packet() {
    let data = vec![
        1u8, // Packet-id,
        7,   // id-length
        112, 111, 105, 110, 116, 105, 100, // "pointid"
    ];
    let (packet, _) = Packet::<StringKey>::read_from(&data).unwrap();

    assert_eq!(
        packet,
        Packet::<StringKey>::Subscribe {
            id: StringKey::new("pointid").unwrap(),
        }
    );
}

#[test]
fn packet_deserialize_update_packet() {
    let data = vec![
        2u8, // Packet-id,
        7,   // id-length
        112, 111, 105, 110, 116, 105, 100, // "pointid"
        11,  // Value-id
        0, 0, 0, 0, 0, 0, 4, 210, // 1234 in i64
    ];
    let (packet, _) = Packet::<StringKey>::read_from(&data).unwrap();

    assert_eq!(
        packet,
        Packet::<StringKey>::Update {
            id: StringKey::new("pointid").unwrap(),
            new_value: Value::I64(1234),
        }
    );
}

#[test]
fn an_update_frame_has_these_bytes() {
    let packet = Packet::Update {
        id: StringKey::new("first_namespace/some_value").unwrap(),
        new_value: Value::I32(7),
    };
    let mut expected = vec![0x02, 26];
    expected.extend_from_slice(b"first_namespace/some_value");
    expected.extend_from_slice(&[0x09, 0x00, 0x00, 0x00, 0x07]);
    assert_eq!(encode(&packet), expected);
    assert_eq!(
        Packet::<StringKey>::read_from(&expected).unwrap(),
        (packet, expected.len())
    );
}

#[test]
fn packet_tags_are_fixed() {
    let key = || StringKey::new("k").unwrap();
    let text = || Value::String(String::from("t"));
    assert_eq!(u8::from(&Packet::Subscribe { id: key() }), 1);
    assert_eq!(u8::from(&Packet::Update { id: key(), new_value: Value::U8(1) }), 2);
    assert_eq!(u8::from(&Packet::List { id: key() }), 3);
    assert_eq!(u8::from(&Packet::<StringKey>::Error { value: text() }), 4);
    assert_eq!(u8::from(&Packet::<StringKey>::Okay {}), 5);
    assert_eq!(u8::from(&Packet::<StringKey>::RegisterSchema { schema: text() }), 6);
    assert_eq!(Packet::<StringKey>::Okay {}.tag(), 5);
}

#[test]
fn every_packet_comes_back_from_its_frame() {
    let packets = vec![
        Packet::Subscribe { id: StringKey::new("first_namespace/*").unwrap() },
        Packet::Subscribe { id: StringKey::new("").unwrap() },
        Packet::Update {
            id: StringKey::new("a/b").unwrap(),
            new_value: Value::String(String::from("x")),
        },
        Packet::Update { id: StringKey::new("a/b").unwrap(), new_value: Value::Blob(vec![1, 2]) },
        Packet::Update { id: StringKey::new("a/b").unwrap(), new_value: Value::Boolean(true) },
        Packet::Update {
            id: StringKey::new(&"z".repeat(255)).unwrap(),
            new_value: Value::F64(1.25f64.to_bits()),
        },
        Packet::List { id: StringKey::new("a").unwrap() },
        Packet::Error { value: Value::String(String::from("3: invalid point")) },
        Packet::Okay {},
        Packet::RegisterSchema {
            schema: Value::String(String::from("first_namespace {\n - some_value: i32 | u16\n}")),
        },
    ];
    for packet in packets {
        let frame = encode(&packet);
        let (read, used) = Packet::<StringKey>::read_from(&frame).unwrap();
        assert_eq!(read, packet);
        assert_eq!(used, frame.len());
        let mut followed = frame.clone();
        followed.extend_from_slice(&[0xfe, 0xfe]);
        let (read, used) = Packet::<StringKey>::read_from(&followed).unwrap();
        assert_eq!(read, packet);
        assert_eq!(used, frame.len());
    }
}

#[test]
fn packets_with_raw_keys_come_back_too() {
    let packet = Packet::Update {
        id: RawKey::<3>::from_slice(&[0, 200, 7]).unwrap(),
        new_value: Value::U16(513),
    };
    let mut frame = Vec::new();
    packet.write_to(&mut frame).unwrap();
    assert_eq!(frame, vec![2, 3, 0, 200, 7, 6, 2, 1]);
    assert_eq!(Packet::<RawKey<3>>::read_from(&frame).unwrap(), (packet, 8));
    assert_eq!(
        Packet::<RawKey<3>>::read_from(&[1, 2, 9, 9]).unwrap_err().kind,
        ErrorKind::InvalidKeyLength
    );
}

#[test]
fn keys_are_lowercased_when_read() {
    let (packet, _) = Packet::<StringKey>::read_from(&[3, 3, b'A', b'b', b'C']).unwrap();
    assert_eq!(packet, Packet::List { id: StringKey::new("abc").unwrap() });
}

#[test]
fn unknown_packet_tags_are_refused() {
    for tag in [0u8, 7, 0x7f, 0xfe, 0xff] {
        let error = Packet::<StringKey>::read_from(&[tag, 0, 0]).unwrap_err();
        assert_eq!(error.kind, ErrorKind::UnknownPacketTag);
        assert_eq!(error.message, "Invalid packet-type");
    }
}

#[test]
fn keys_that_are_not_ascii_are_refused() {
    let error = Packet::<StringKey>::read_from(&[1, 2, 0xc3, 0xa9]).unwrap_err();
    assert_eq!(error.kind, ErrorKind::InvalidKey);
}

#[test]
fn bad_values_in_packets_are_refused() {
    assert_eq!(
        Packet::<StringKey>::read_from(&[2, 1, b'a', 0]).unwrap_err().kind,
        ErrorKind::UnknownValueTag
    );
    assert_eq!(
        Packet::<StringKey>::read_from(&[4, 3, 0, 0, 0, 1, 0xff]).unwrap_err().kind,
        ErrorKind::InvalidUtf8
    );
}

#[test]
fn error_and_schema_packets_carry_strings_only() {
    assert_eq!(
        Packet::<StringKey>::read_from(&[4, 4, 1]).unwrap_err().kind,
        ErrorKind::InvalidPayload
    );
    assert_eq!(
        Packet::<StringKey>::read_from(&[6, 2, 0, 0, 0, 0]).unwrap_err().kind,
        ErrorKind::InvalidPayload
    );
    let mut target = vec![1, 2, 3];
    let error = Packet::<StringKey>::Error { value: Value::U8(1) }
        .write_to(&mut target)
        .unwrap_err();
    assert_eq!(error.kind, ErrorKind::InvalidPayload);
    assert_eq!(target, vec![1, 2, 3]);
    let error = Packet::<StringKey>::RegisterSchema { schema: Value::Blob(vec![]) }
        .write_to(&mut target)
        .unwrap_err();
    assert_eq!(error.kind, ErrorKind::InvalidPayload);
    assert_eq!(target, vec![1, 2, 3]);
}

#[test]
fn keys_longer_than_a_length_byte_are_refused() {
    let key = RawKey::<256>::from_slice(&[0; 256]).unwrap();
    let mut target = vec![9];
    let error = Packet::Subscribe { id: key }.write_to(&mut target).unwrap_err();
    assert_eq!(error.kind, ErrorKind::KeyTooLong);
    assert_eq!(target, vec![9]);
    assert_eq!(write_key(&mut target, &key).unwrap_err().kind, ErrorKind::KeyTooLong);
    assert_eq!(target, vec![9]);
}

#[test]
fn short_frames_say_how_much_is_missing() {
    assert_eq!(
        Packet::<StringKey>::read_from(&[]).unwrap_err().kind,
        ErrorKind::ShortRead { missing: 1 }
    );
    assert_eq!(
        Packet::<StringKey>::read_from(&[1]).unwrap_err().kind,
        ErrorKind::ShortRead { missing: 1 }
    );
    assert_eq!(
        Packet::<StringKey>::read_from(&[1, 7, b'p']).unwrap_err().kind,
        ErrorKind::ShortRead { missing: 6 }
    );
    assert_eq!(
        Packet::<StringKey>::read_from(&[2, 1, b'p']).unwrap_err().kind,
        ErrorKind::ShortRead { missing: 1 }
    );
    assert_eq!(
        Packet::<StringKey>::read_from(&[2, 1, b'p', 11, 0]).unwrap_err().kind,
        ErrorKind::ShortRead { missing: 7 }
    );
    assert_eq!(
        Packet::<StringKey>::read_from(&[6, 3, 0, 0, 0, 9]).unwrap_err().kind,
        ErrorKind::ShortRead { missing: 9 }
    );
}

#[test]
fn read_len_raw_reads_a_length_and_that_many_bytes() {
    assert_eq!(read_len_raw(&[2, 7, 8, 9]).unwrap(), &[7, 8]);
    assert_eq!(read_len_raw(&[0]).unwrap(), &[] as &[u8]);
    assert_eq!(
        read_len_raw(&[3, 1]).unwrap_err().kind,
        ErrorKind::ShortRead { missing: 2 }
    );
}

#[test]
fn ok_is_one_byte() {
    assert_eq!(encode(&Packet::Okay {}), vec![5]);
    assert_eq!(
        Packet::<StringKey>::read_from(&[5]).unwrap(),
        (Packet::Okay {}, 1)
    );
}

#[test]
fn key_bytes_are_the_text() {
    assert_eq!(StringKey::new("Ab").unwrap().as_slice(), b"ab");
}
