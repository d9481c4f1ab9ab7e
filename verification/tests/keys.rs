use broker::{ErrorKind, Key, RawKey, StringKey};

#[test]
fn lib_string_key_from_slice() {
    assert_eq!(
        StringKey::from_slice(b"test").expect("Could not parse").as_str(),
        "test"
    );
    assert_eq!(
        StringKey::from_slice(b"TEST").expect("Could not parse").as_str(),
        "test"
    );

    assert_eq!(
        StringKey::from_slice(b"tEsTtEsTtEsTtEsTtEsTtEsTtEsT")
            .expect("Could not parse")
            .as_str(),
        "testtesttesttesttesttesttest"
    );

    assert!(StringKey::from_slice("💖".as_bytes()).is_err());
}

#[test]
fn lib_string_key_as_slice() {
    assert_eq!(
        StringKey::new("test").unwrap().as_slice(),
        "test".as_bytes()
    );
    assert_eq!(
        StringKey::new("TEST").unwrap().as_slice(),
        "test".as_bytes()
    );
}

#[test]
fn string_key_from_slice() {
    assert_eq!(
        StringKey::from_slice(b"test").expect("Could not parse").get_string(),
        "test"
    );
    assert_eq!(
        StringKey::from_slice(b"TEST").expect("Could not parse").get_string(),
        "test"
    );

    assert_eq!(
        StringKey::from_slice(b"tEsTtEsTtEsTtEsTtEsTtEsTtEsT")
            .expect("Could not parse")
            .get_string(),
        "testtesttesttesttesttesttest"
    );

    assert!(StringKey::from_slice("💖".as_bytes()).is_err());
}

#[test]
fn string_key_as_slice() {
    assert_eq!(
        StringKey::new("test").unwrap().as_slice(),
        "test".as_bytes()
    );
    assert_eq!(
        StringKey::new("TEST").unwrap().as_slice(),
        "test".as_bytes()
    );
}

#[test]
fn string_key_get_string_gives_the_text() {
    assert_eq!(StringKey::new("Some/Point").unwrap().get_string(), "some/point");
}

#[test]
fn string_key_keeps_what_is_no_letter() {
    let key = StringKey::new("A_b-9/Z@[`{").unwrap();
    assert_eq!(key.as_str(), "a_b-9/z@[`{");
}

#[test]
fn string_key_refuses_text_that_is_not_ascii() {
    let error = StringKey::new("caf\u{e9}").unwrap_err();
    assert_eq!(error.kind, ErrorKind::InvalidKey);
    assert_eq!(error.message, "Invalid key. Only ascii-characters allowed");
    let error = StringKey::from_slice(&[0x61, 0xff]).unwrap_err();
    assert_eq!(error.kind, ErrorKind::InvalidKey);
}

#[test]
fn string_key_holds_at_most_255_bytes() {
    let longest = "k".repeat(255);
    assert_eq!(StringKey::new(&longest).unwrap().as_str(), longest);
    let too_long = "k".repeat(256);
    assert_eq!(StringKey::new(&too_long).unwrap_err().kind, ErrorKind::KeyTooLong);
    assert_eq!(
        StringKey::from_slice(too_long.as_bytes()).unwrap_err().kind,
        ErrorKind::KeyTooLong
    );
}

#[test]
fn string_key_refuses_what_is_not_ascii_before_what_is_too_long() {
    let text = "\u{e9}".repeat(200);
    assert_eq!(StringKey::new(&text).unwrap_err().kind, ErrorKind::InvalidKey);
}

#[test]
fn string_key_normalization_is_idempotent() {
    for text in ["", "abc", "ABC", "MiXeD/Case_09", "already/lower"] {
        let once = StringKey::new(text).unwrap();
        let twice = StringKey::new(once.as_str()).unwrap();
        assert_eq!(once, twice);
        assert_eq!(once.as_str(), text.to_ascii_lowercase());
    }
}

#[test]
fn string_key_duplicate_is_equal() {
    let key = StringKey::new("a/b").unwrap();
    assert_eq!(key.duplicate(), key);
}

#[test]
fn raw_key_from_slice_takes_exactly_its_length() {
    let key = RawKey::<4>::from_slice(&[1, 2, 3, 4]).unwrap();
    assert_eq!(key.as_slice(), &[1, 2, 3, 4]);
    assert_eq!(
        RawKey::<4>::from_slice(&[1, 2, 3]).unwrap_err().kind,
        ErrorKind::InvalidKeyLength
    );
    assert_eq!(
        RawKey::<4>::from_slice(&[1, 2, 3, 4, 5]).unwrap_err().kind,
        ErrorKind::InvalidKeyLength
    );
    assert!(RawKey::<0>::from_slice(&[]).is_ok());
}

#[test]
fn raw_key_to_text_shows_hex_and_length() {
    let key = RawKey::<3>::from_slice(&[0x00, 0xab, 0x7f]).unwrap();
    assert_eq!(key.to_text(), "(00ab7f, len=3)");
    let key = RawKey::<12>::from_slice(&[255; 12]).unwrap();
    assert_eq!(key.to_text(), "(ffffffffffffffffffffffff, len=12)");
}

#[test]
fn raw_key_new_random_has_its_length() {
    let one = RawKey::<8>::new_random().unwrap();
    assert_eq!(one.as_slice().len(), 8);
    let many: Vec<RawKey<8>> = (0..8).map(|_| RawKey::<8>::new_random().unwrap()).collect();
    assert!(many.iter().any(|key| *key != one));
}

#[test]
fn raw_key_from_random_passes_the_outcome_on() {
    let key = RawKey::<2>::from_random(Ok([7, 9])).unwrap();
    assert_eq!(key.as_slice(), &[7, 9]);
    let error = RawKey::<2>::from_random(Err(String::from("no entropy"))).unwrap_err();
    assert_eq!(error.kind, ErrorKind::Other);
    assert_eq!(error.inner, Some(String::from("no entropy")));
}
