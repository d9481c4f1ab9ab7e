use broker::{Error, ErrorKind, Value};

fn encode(value: &Value) -> Vec<u8> {
    let mut target = Vec::new();
    value.write_to(&mut target).unwrap();
    target
}

#[test]
fn value_maps_to_correct_values() {
    assert_eq!(u8::from(Value::Boolean(false)), 1);
    assert_eq!(u8::from(Value::Blob(vec![])), 2);
    assert_eq!(u8::from(Value::String(String::new())), 3);

    assert_eq!(u8::from(Value::U8(0)), 4);
    assert_eq!(u8::from(Value::I8(0)), 5);

    assert_eq!(u8::from(Value::U16(0)), 6);
    assert_eq!(u8::from(Value::I16(0)), 7);

    assert_eq!(u8::from(Value::U32(0)), 8);
    assert_eq!(u8::from(Value::I32(0)), 9);

    assert_eq!(u8::from(Value::U64(0)), 10);
    assert_eq!(u8::from(Value::I64(0)), 11);

    assert_eq!(u8::from(Value::F32(0f32.to_bits())), 12);
    assert_eq!(u8::from(Value::F64(0f64.to_bits())), 13);
}

#[test]
fn serializes_8_correctly() {
    let mut target = Vec::new();
    let value = Value::U8(u8::MAX);
    value.write_to(&mut target).unwrap();
    assert_eq!(&target[0..2], &[4, 255]);

    let mut target = Vec::new();
    let value = Value::I8(i8::MAX);
    value.write_to(&mut target).unwrap();
    assert_eq!(&target[0..2], &[5, 127]);
}

#[test]
fn serializes_16_correctly() {
    let mut target = Vec::new();
    let value = Value::U16(u16::MAX);
    value.write_to(&mut target).unwrap();
    assert_eq!(&target[0..3], &[6, 255, 255]);

    let mut target = Vec::new();
    let value = Value::I16(i16::MAX);
    value.write_to(&mut target).unwrap();
    assert_eq!(&target[0..3], &[7, 127, 255]);
}

#[test]
fn serializes_32_correctly() {
    let mut target = Vec::new();
    let value = Value::U32(u32::MAX);
    value.write_to(&mut target).unwrap();
    assert_eq!(&target[0..5], &[8, 255, 255, 255, 255]);

    let mut target = Vec::new();
    let value = Value::I32(i32::MAX);
    value.write_to(&mut target).unwrap();
    assert_eq!(&target[0..5], &[9, 127, 255, 255, 255]);
}

#[test]
fn serializes_64_correctly() {
    let mut target = Vec::new();
    let value = Value::U64(u64::MAX);
    value.write_to(&mut target).unwrap();
    assert_eq!(
        &target[0..9],
        &[10, 255, 255, 255, 255, 255, 255, 255, 255]
    );

    let mut target = Vec::new();
    let value = Value::I64(i64::MAX);
    value.write_to(&mut target).unwrap();
    assert_eq!(
        &target[0..9],
        &[11, 127, 255, 255, 255, 255, 255, 255, 255]
    );
}

#[test]
fn serializes_f_correctly() {
    let mut target = Vec::new();
    let value = Value::F32(f32::MAX.to_bits());
    value.write_to(&mut target).unwrap();
    assert_eq!(&target[0..5], &[12, 127, 127, 255, 255]);

    let mut target = Vec::new();
    let value = Value::F64(f64::MAX.to_bits());
    value.write_to(&mut target).unwrap();
    assert_eq!(
        &target[0..9],
        &[13, 127, 239, 255, 255, 255, 255, 255, 255]
    );
}

#[test]
fn booleans_are_one_byte() {
    assert_eq!(encode(&Value::Boolean(false)), vec![1, 0]);
    assert_eq!(encode(&Value::Boolean(true)), vec![1, 1]);
    assert_eq!(Value::read_from(&[1, 0]).unwrap(), (Value::Boolean(false), 2));
    assert_eq!(Value::read_from(&[1, 1]).unwrap(), (Value::Boolean(true), 2));
    assert_eq!(Value::read_from(&[1, 2]).unwrap_err().kind, ErrorKind::InvalidBoolean);
}

#[test]
fn blobs_and_strings_carry_a_big_endian_length() {
    assert_eq!(encode(&Value::Blob(vec![9, 8, 7])), vec![2, 0, 0, 0, 3, 9, 8, 7]);
    assert_eq!(encode(&Value::Blob(vec![])), vec![2, 0, 0, 0, 0]);
    assert_eq!(
        encode(&Value::String(String::from("h\u{e9}"))),
        vec![3, 0, 0, 0, 3, b'h', 0xc3, 0xa9]
    );
    let long = Value::Blob(vec![5; 300]);
    let bytes = encode(&long);
    assert_eq!(&bytes[0..5], &[2, 0, 0, 1, 44]);
    assert_eq!(bytes.len(), 305);
}

#[test]
fn negative_numbers_are_twos_complement() {
    assert_eq!(encode(&Value::I8(-1)), vec![5, 0xff]);
    assert_eq!(encode(&Value::I8(i8::MIN)), vec![5, 0x80]);
    assert_eq!(encode(&Value::I16(-2)), vec![7, 0xff, 0xfe]);
    assert_eq!(encode(&Value::I32(-1234)), vec![9, 0xff, 0xff, 0xfb, 0x2e]);
    assert_eq!(
        encode(&Value::I64(i64::MIN)),
        vec![11, 0x80, 0, 0, 0, 0, 0, 0, 0]
    );
    assert_eq!(Value::read_from(&[5, 0x80]).unwrap().0, Value::I8(i8::MIN));
    assert_eq!(Value::read_from(&[7, 0xff, 0xfe]).unwrap().0, Value::I16(-2));
    assert_eq!(
        Value::read_from(&[9, 0xff, 0xff, 0xfb, 0x2e]).unwrap().0,
        Value::I32(-1234)
    );
    assert_eq!(
        Value::read_from(&[11, 0xff, 0xff, 0xff, 0xff, 0xff, 0xff, 0xff, 0xff]).unwrap().0,
        Value::I64(-1)
    );
}

#[test]
fn write_to_appends_to_what_is_there() {
    let mut target = vec![42];
    Value::U16(0x0102).write_to(&mut target).unwrap();
    assert_eq!(target, vec![42, 6, 1, 2]);
}

#[test]
fn every_value_comes_back_from_its_bytes() {
    let values = vec![
        Value::Boolean(true),
        Value::Boolean(false),
        Value::Blob(vec![]),
        Value::Blob(vec![0, 255, 3]),
        Value::String(String::new()),
        Value::String(String::from("first_namespace/some_value \u{1f496}")),
        Value::U8(0),
        Value::U8(200),
        Value::I8(-128),
        Value::I8(127),
        Value::U16(65535),
        Value::I16(-32768),
        Value::U32(0xdead_beef),
        Value::I32(i32::MIN),
        Value::U64(u64::MAX),
        Value::I64(i64::MIN),
        Value::I64(1234),
        Value::F32(1.5f32.to_bits()),
        Value::F32(f32::NAN.to_bits()),
        Value::F64((-0.0f64).to_bits()),
        Value::F64(f64::INFINITY.to_bits()),
    ];
    for value in values {
        let bytes = encode(&value);
        assert_eq!(Value::read_from(&bytes).unwrap(), (value.duplicate(), bytes.len()));
        let mut followed = bytes.clone();
        followed.extend_from_slice(&[1, 2, 3]);
        assert_eq!(Value::read_from(&followed).unwrap(), (value, bytes.len()));
    }
}

#[test]
fn floats_travel_as_their_bits() {
    let bytes = encode(&Value::F64(2.5f64.to_bits()));
    let (value, _) = Value::read_from(&bytes).unwrap();
    match value {
        Value::F64(bits) => assert_eq!(f64::from_bits(bits), 2.5),
        other => panic!("not a float: {:?}", other),
    }
}

#[test]
fn unknown_value_tags_are_refused() {
    for tag in [0u8, 14, 100, 0xfe, 0xff] {
        let error = Value::read_from(&[tag, 0, 0, 0, 0, 0, 0, 0, 0]).unwrap_err();
        assert_eq!(error.kind, ErrorKind::UnknownValueTag);
        assert_eq!(error.message, "Invalid value-type");
    }
}

#[test]
fn short_reads_say_how_much_is_missing() {
    assert_eq!(
        Value::read_from(&[]).unwrap_err().kind,
        ErrorKind::ShortRead { missing: 1 }
    );
    assert_eq!(
        Value::read_from(&[8, 0, 0]).unwrap_err().kind,
        ErrorKind::ShortRead { missing: 2 }
    );
    assert_eq!(
        Value::read_from(&[10]).unwrap_err().kind,
        ErrorKind::ShortRead { missing: 8 }
    );
    assert_eq!(
        Value::read_from(&[3, 0, 0]).unwrap_err().kind,
        ErrorKind::ShortRead { missing: 2 }
    );
    assert_eq!(
        Value::read_from(&[3, 0, 0, 0, 5, b'a']).unwrap_err().kind,
        ErrorKind::ShortRead { missing: 4 }
    );
    assert_eq!(
        Value::read_from(&[2, 0xff, 0xff, 0xff, 0xff]).unwrap_err().kind,
        ErrorKind::ShortRead { missing: 0xffff_ffff }
    );
    assert_eq!(
        Value::read_from(&[1]).unwrap_err().kind,
        ErrorKind::ShortRead { missing: 1 }
    );
}

#[test]
fn strings_must_be_utf8() {
    let error = Value::read_from(&[3, 0, 0, 0, 2, 0xc3, 0x28]).unwrap_err();
    assert_eq!(error.kind, ErrorKind::InvalidUtf8);
    assert_eq!(
        Value::read_from(&[2, 0, 0, 0, 2, 0xc3, 0x28]).unwrap().0,
        Value::Blob(vec![0xc3, 0x28])
    );
}

#[test]
fn errors_carry_their_kind_and_message() {
    let plain = Error::new("IO-error");
    assert_eq!(plain.kind, ErrorKind::Other);
    assert_eq!(plain.message, "IO-error");
    assert_eq!(plain.inner, None);
    let caused = Error::new_with_inner("UTF8-error", String::from("bad byte"));
    assert_eq!(caused.message, "UTF8-error");
    assert_eq!(caused.inner, Some(String::from("bad byte")));
    let typed = Error::of(ErrorKind::UnknownPacketTag);
    assert_eq!(typed.message, "Invalid packet-type");
    assert_eq!(ErrorKind::InvalidUtf8.describe(), "UTF8-error");
}

#[test]
fn tag_is_the_first_byte_of_the_encoding() {
    let value = Value::I32(7);
    assert_eq!(value.tag(), 9);
    assert_eq!(encode(&value)[0], value.tag());
}
