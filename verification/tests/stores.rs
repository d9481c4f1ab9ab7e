use broker::store::{settle_update, stored_bytes, stored_value};
use broker::{
    Error, ErrorKind, MemoryStore, ParseErrorKind, PointType, Store, StringKey, UpdateError, Value,
    ValueStore,
};

/// A backend that keeps nothing and says so.
struct FullDisk;

impl Store<StringKey> for FullDisk {
    fn store_value(&mut self, _key: &StringKey, _value: &Value) -> Result<(), Error> {
        Err(Error::new("disk full"))
    }

    fn get_value(&mut self, _key: &StringKey) -> Option<Value> {
        None
    }
}

fn key(text: &str) -> StringKey {
    StringKey::new(text).unwrap()
}

fn sample_store() -> ValueStore<MemoryStore> {
    let mut store = ValueStore::new(MemoryStore::new());
    store
        .build_schema(&vec![String::from("first_namespace {\n - some_value: i32 | u16\n}")])
        .unwrap();
    store
}

#[test]
fn lib_it_works() {
    assert_eq!(2 + 2, 4);
}

#[test]
fn an_update_of_a_declared_type_is_kept() {
    let mut store = sample_store();
    let id = key("first_namespace/some_value");
    assert_eq!(store.update_point(&id, Value::I32(7)), Ok(Value::I32(7)));
    assert_eq!(store.get_value(&id), Some(Value::I32(7)));
    assert_eq!(store.update_point(&id, Value::U16(9)), Ok(Value::U16(9)));
    assert_eq!(store.get_value(&id), Some(Value::U16(9)));
}

#[test]
fn an_update_of_another_type_is_refused() {
    let mut store = sample_store();
    let id = key("first_namespace/some_value");
    let error = store.update_point(&id, Value::String(String::from("x"))).unwrap_err();
    assert_eq!(error, UpdateError::InvalidPointType);
    assert_eq!(error.message(), "invalid point-type");
    assert_eq!(store.get_value(&id), None);
    assert_eq!(
        store.check_update(&id, &Value::U32(1)),
        Some(UpdateError::InvalidPointType)
    );
    assert_eq!(store.check_update(&id, &Value::U16(1)), None);
}

#[test]
fn an_update_of_an_unknown_point_is_refused() {
    let mut store = sample_store();
    let id = key("first_namespace/missing");
    let error = store.update_point(&id, Value::I32(0)).unwrap_err();
    assert_eq!(error, UpdateError::InvalidPoint);
    assert_eq!(error.message(), "invalid point");
    assert_eq!(store.get_value(&id), None);
    let mut empty = ValueStore::new(MemoryStore::new());
    assert_eq!(
        empty.update_point(&key("first_namespace/some_value"), Value::I32(0)),
        Err(UpdateError::InvalidPoint)
    );
}

#[test]
fn a_failure_of_the_backend_is_reported() {
    let mut store = ValueStore::new(FullDisk);
    store.build_schema(&vec![String::from("a { - p: u8 }")]).unwrap();
    let error = store.update_point(&key("a/p"), Value::U8(1)).unwrap_err();
    assert_eq!(error, UpdateError::Store(Error::new("disk full")));
    assert_eq!(error.message(), "disk full");
}

#[test]
fn settle_update_follows_the_backend() {
    assert_eq!(settle_update(Ok(()), Value::U8(3)), Ok(Value::U8(3)));
    assert_eq!(
        settle_update(Err(Error::new("gone")), Value::U8(3)),
        Err(UpdateError::Store(Error::new("gone")))
    );
}

#[test]
fn fragments_are_joined_and_parsed_as_one_text() {
    let mut store = ValueStore::new(MemoryStore::new());
    store
        .build_schema(&vec![
            String::from("a { - p: u8 }"),
            String::from("b { - q: string }"),
            String::from("a { - p: u16 }"),
        ])
        .unwrap();
    assert_eq!(store.schema().len(), 2);
    let mut types = store.query_single("a/p").unwrap().types.to_vec();
    types.sort();
    assert_eq!(types, vec![PointType::U8, PointType::U16]);
    assert!(store.query_single("b/q").is_some());
    assert!(store.query_single("b/p").is_none());
    // Fragments do not run into each other.
    store.build_schema(&vec![String::from("a { - p: u8 } b"), String::from("{ }")]).unwrap();
    assert_eq!(store.schema().len(), 2);
    store.build_schema(&vec![]).unwrap();
    assert_eq!(store.schema().len(), 0);
}

#[test]
fn a_refused_schema_leaves_the_schema_in_force() {
    let mut store = sample_store();
    let error = store.build_schema(&vec![String::from("broken {")]).unwrap_err();
    assert_eq!(error.kind, ParseErrorKind::Syntax);
    assert_eq!(error.position, 10);
    assert!(store.query_single("first_namespace/some_value").is_some());
    let error = store
        .build_schema(&vec![String::from("a { - p: u8 }"), String::from("b { - q: word }")])
        .unwrap_err();
    assert_eq!(error.kind, ParseErrorKind::UnknownType);
    assert_eq!(error.position, 24);
    assert!(store.query_single("first_namespace/some_value").is_some());
    assert!(store.query_single("a/p").is_none());
    assert_eq!(
        store.update_point(&key("first_namespace/some_value"), Value::I32(7)),
        Ok(Value::I32(7))
    );
}

#[test]
fn query_finds_the_points_that_a_glob_matches() {
    let mut store = ValueStore::new(MemoryStore::new());
    store
        .build_schema(&vec![String::from("a { - p: u8  - q: u8  b { - p: u8 } } c { - p: u8 }")])
        .unwrap();
    let names = |found: Vec<&broker::Point>| -> Vec<String> {
        found.iter().map(|point| point.full_name.clone()).collect()
    };
    assert_eq!(names(store.query("a/*").unwrap()), vec!["a/p", "a/q"]);
    assert_eq!(names(store.query("**/p").unwrap()), vec!["a/p", "a/b/p", "c/p"]);
    assert_eq!(names(store.query("A/B/P").unwrap()), vec!["a/b/p"]);
    assert!(store.query("x/*").unwrap().is_empty());
    assert!(store.query("a/[").is_err());
}

#[test]
fn the_memory_store_keeps_the_last_value_of_each_key() {
    let mut store = MemoryStore::new();
    assert_eq!(store.get(b"a"), None);
    store.put(b"a", &Value::U8(1)).unwrap();
    store.put(b"b", &Value::String(String::from("two"))).unwrap();
    assert_eq!(store.get(b"a"), Some(Value::U8(1)));
    store.put(b"a", &Value::I16(-3)).unwrap();
    assert_eq!(store.get(b"a"), Some(Value::I16(-3)));
    assert_eq!(store.get(b"b"), Some(Value::String(String::from("two"))));
    assert_eq!(store.get(b"c"), None);
    assert_eq!(store.get(b""), None);
    let id = key("a");
    assert_eq!(store.get_value(&id), Some(Value::I16(-3)));
    store.store_value(&id, &Value::Boolean(true)).unwrap();
    assert_eq!(store.get_value(&id), Some(Value::Boolean(true)));
    assert_eq!(store.get_value(&key("b")), Some(Value::String(String::from("two"))));
    assert_eq!(store.get_value(&key("missing")), None);
}

#[test]
fn values_are_kept_as_their_encoding() {
    assert_eq!(stored_bytes(&Value::I64(1234)).unwrap(), vec![11, 0, 0, 0, 0, 0, 0, 4, 210]);
    assert_eq!(stored_value(&[11, 0, 0, 0, 0, 0, 0, 4, 210]), Some(Value::I64(1234)));
    assert_eq!(stored_value(&[4, 7, 99]), Some(Value::U8(7)));
    assert_eq!(stored_value(&[11, 0]), None);
    assert_eq!(stored_value(&[0]), None);
    assert_eq!(ErrorKind::ValueTooLong.describe(), "Invalid value. Payload too long");
}
