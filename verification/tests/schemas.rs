use broker::{
    build, parse, parse_declarations, Item, Namespace, ParseErrorKind, Point, PointType, Schema,
    TypeSet,
};

fn types_of(schema: &Schema, full_name: &str) -> Vec<PointType> {
    let mut types = schema.lookup_point(full_name).unwrap().types.to_vec();
    types.sort();
    types
}

fn namespace_names(schema: &Schema) -> Vec<String> {
    let mut names: Vec<String> = schema.namespaces().iter().map(|n| n.name.clone()).collect();
    names.sort();
    names
}

fn point_names(schema: &Schema) -> Vec<(String, Vec<PointType>)> {
    let mut points = Vec::new();
    for namespace in schema.namespaces() {
        for point in &namespace.points {
            let mut types = point.types.to_vec();
            types.sort();
            points.push((point.full_name.clone(), types));
        }
    }
    points.sort();
    points
}

#[test]
pub fn schema_it_works() {
    let schema = parse(
        "
            first_namespace {
                - field1: u8
                - field2: string

                first_inner {
                    - field3: i32

                    nested {
                        - field4: string
                    }
                }

                second_inner {
                    - field5: u32
                }
            }

            second_namespace {
                - field6: u8
                - field7: blob

                first_inner {
                    - field8: u8
                }
            }
        ",
    )
    .unwrap();

    assert_eq!(6, schema.len());
    assert_eq!(
        namespace_names(&schema),
        vec![
            "first_namespace",
            "first_namespace/first_inner",
            "first_namespace/first_inner/nested",
            "first_namespace/second_inner",
            "second_namespace",
            "second_namespace/first_inner",
        ]
    );
    assert_eq!(
        types_of(&schema, "first_namespace/first_inner/nested/field4"),
        vec![PointType::String]
    );
    assert_eq!(types_of(&schema, "second_namespace/field7"), vec![PointType::Blob]);
}

#[test]
fn a_small_schema_declares_one_point() {
    let schema = parse("first_namespace {\n - some_value: i32 | u16\n}").unwrap();
    assert_eq!(schema.len(), 1);
    assert_eq!(
        types_of(&schema, "first_namespace/some_value"),
        vec![PointType::U16, PointType::I32]
    );
    assert!(schema.lookup_point("first_namespace/missing").is_none());
    assert!(schema.lookup_point("first_namespace").is_none());
    let point = schema.lookup_point("first_namespace/some_value").unwrap();
    assert_eq!(point.name, "some_value");
    assert_eq!(point.full_name, "first_namespace/some_value");
}

#[test]
fn type_sets_of_one_point_are_united() {
    let schema = parse("n { - a: u8 | u16 }  n { - a: u16 | string }").unwrap();
    assert_eq!(schema.len(), 1);
    assert_eq!(
        types_of(&schema, "n/a"),
        vec![PointType::String, PointType::U8, PointType::U16]
    );
    let schema = parse("n { - a: u8 | u16  - a: u16 | string  - a: u8 }").unwrap();
    assert_eq!(
        types_of(&schema, "n/a"),
        vec![PointType::String, PointType::U8, PointType::U16]
    );
    assert_eq!(schema.namespaces()[0].points.len(), 1);
}

#[test]
fn nested_namespaces_of_one_path_are_merged() {
    let schema = parse("x{y{-p:u8}} x{y{-q:i32}}").unwrap();
    assert_eq!(namespace_names(&schema), vec!["x", "x/y"]);
    assert_eq!(
        point_names(&schema),
        vec![
            (String::from("x/y/p"), vec![PointType::U8]),
            (String::from("x/y/q"), vec![PointType::I32]),
        ]
    );
    let schema = parse("x{y{-p:u8} y{-q:i32}}").unwrap();
    assert_eq!(namespace_names(&schema), vec!["x", "x/y"]);
    assert_eq!(point_names(&schema).len(), 2);
}

#[test]
fn the_order_of_declarations_does_not_matter() {
    let parts = [
        "a { - p: u8  b { - q: string } }",
        "c { - r: f32 | f64 }",
        "a { - p: i8  - s: blob }",
    ];
    let orders: [[usize; 3]; 6] =
        [[0, 1, 2], [0, 2, 1], [1, 0, 2], [1, 2, 0], [2, 0, 1], [2, 1, 0]];
    let expected = parse(&parts.join("\n")).unwrap();
    for order in orders {
        let text: Vec<&str> = order.iter().map(|i| parts[*i]).collect();
        let schema = parse(&text.join("\r\n")).unwrap();
        assert_eq!(namespace_names(&schema), namespace_names(&expected));
        assert_eq!(point_names(&schema), point_names(&expected));
    }
    assert_eq!(
        point_names(&expected),
        vec![
            (String::from("a/b/q"), vec![PointType::String]),
            (String::from("a/p"), vec![PointType::U8, PointType::I8]),
            (String::from("a/s"), vec![PointType::Blob]),
            (String::from("c/r"), vec![PointType::F32, PointType::F64]),
        ]
    );
}

#[test]
fn every_type_name_is_known_in_any_case() {
    let schema = parse(
        "t { - a: boolean | blob | string | u8 | i8 | u16 | i16 | u32 | i32 | u64 | i64
             | f32 | f64 }",
    )
    .unwrap();
    assert_eq!(
        types_of(&schema, "t/a"),
        vec![
            PointType::Boolean,
            PointType::Blob,
            PointType::String,
            PointType::U8,
            PointType::I8,
            PointType::U16,
            PointType::I16,
            PointType::U32,
            PointType::I32,
            PointType::U64,
            PointType::I64,
            PointType::F32,
            PointType::F64,
        ]
    );
    let schema = parse("t { - a: Boolean | BLOB | sTrInG | U8 | F64 }").unwrap();
    assert_eq!(
        types_of(&schema, "t/a"),
        vec![
            PointType::Boolean,
            PointType::Blob,
            PointType::String,
            PointType::U8,
            PointType::F64
        ]
    );
}

#[test]
fn names_are_kept_in_lower_case() {
    let schema = parse("First_NS { - Some_Value: u8  Inner { - X: u8 } }").unwrap();
    assert_eq!(namespace_names(&schema), vec!["first_ns", "first_ns/inner"]);
    assert!(schema.lookup_point("first_ns/some_value").is_some());
    assert!(schema.lookup_point("First_NS/Some_Value").is_none());
    let schema = parse("a { - p: u8 } A { - P: u16 }").unwrap();
    assert_eq!(schema.len(), 1);
    assert_eq!(types_of(&schema, "a/p"), vec![PointType::U8, PointType::U16]);
}

#[test]
fn white_space_between_tokens_is_free() {
    let tight = parse("a{-p:u8|u16 b{}}").unwrap();
    let loose = parse("\r\n\ta \n{\n-\tp\n:\nu8\n|\nu16\n\nb\n{\n}\n}\n ").unwrap();
    assert_eq!(namespace_names(&tight), namespace_names(&loose));
    assert_eq!(point_names(&tight), point_names(&loose));
}

#[test]
fn the_empty_text_declares_nothing() {
    assert_eq!(parse("").unwrap().len(), 0);
    assert_eq!(parse(" \r\n\t ").unwrap().len(), 0);
    assert_eq!(Schema::empty().len(), 0);
    assert!(Schema::empty().lookup_point("a/b").is_none());
}

#[test]
fn syntax_errors_come_with_their_position() {
    let cases: Vec<(&str, usize)> = vec![
        ("a", 1),
        ("a {", 3),
        ("a { - p: u8", 11),
        ("}", 0),
        ("a { } }", 6),
        ("- p: u8", 0),
        ("a { - : u8 }", 6),
        ("a { - p u8 }", 8),
        ("a { - p: }", 9),
        ("a { - p: u8 | }", 14),
        ("a { - p: u8 u16 }", 16),
        ("a { p: u8 }", 5),
        ("a b { }", 2),
        ("a { } 9b { }", 6),
        ("a { - p: u8 } \u{e9}", 14),
        ("a { - p: u8; }", 11),
        ("a { | }", 4),
        ("{ }", 0),
    ];
    for (text, position) in cases {
        let error = parse(text).unwrap_err();
        assert_eq!(error.kind, ParseErrorKind::Syntax, "{}", text);
        assert_eq!(error.position, position, "{}", text);
    }
    assert_eq!(parse("a").unwrap_err().message(), "Syntax error at position 1");
}

#[test]
fn unknown_type_names_come_with_their_position() {
    let error = parse("a { - p: u8 | uint }").unwrap_err();
    assert_eq!(error.kind, ParseErrorKind::UnknownType);
    assert_eq!(error.position, 14);
    assert_eq!(error.message(), "Invalid type-name at position 14");
    let error = parse("a { - p: u7 | quux }").unwrap_err();
    assert_eq!(error.position, 9);
    // The points of a namespace are looked at before the namespaces in it.
    let error = parse("a { b { - p: bad1 } - q: bad2 }").unwrap_err();
    assert_eq!(error.kind, ParseErrorKind::UnknownType);
    assert_eq!(error.position, 25);
    // A syntax error anywhere comes first.
    let error = parse("a { - p: nope } }").unwrap_err();
    assert_eq!(error.kind, ParseErrorKind::Syntax);
    assert_eq!(error.position, 16);
}

#[test]
fn declarations_are_read_as_written() {
    let namespaces = parse_declarations(b"Outer { - P: u8 | Nope  inner { } - q: f32 }").unwrap();
    assert_eq!(namespaces.len(), 1);
    let outer = &namespaces[0];
    assert_eq!(outer.name, b"Outer");
    assert_eq!(outer.items.len(), 3);
    match &outer.items[0] {
        Item::Point(point) => {
            assert_eq!(point.name, b"P");
            assert_eq!(point.types.len(), 2);
            assert_eq!(point.types[0].name, b"u8");
            assert_eq!(point.types[0].position, 13);
            assert_eq!(point.types[1].name, b"Nope");
            assert_eq!(point.types[1].position, 18);
        }
        Item::Namespace(_) => panic!("a point was declared first"),
    }
    match &outer.items[1] {
        Item::Namespace(inner) => {
            assert_eq!(inner.name, b"inner");
            assert!(inner.items.is_empty());
        }
        Item::Point(_) => panic!("a namespace was declared second"),
    }
    let error = build(&namespaces).unwrap_err();
    assert_eq!(error.kind, ParseErrorKind::UnknownType);
    assert_eq!(error.position, 18);
    let good = parse_declarations(b"a { - p: u8 }").unwrap();
    assert_eq!(build(&good).unwrap().len(), 1);
}

#[test]
fn try_from_names_the_type() {
    let namespaces = parse_declarations(b"a { - p: I64 | i65 }").unwrap();
    match &namespaces[0].items[0] {
        Item::Point(point) => {
            assert_eq!(PointType::try_from(&point.types[0]).unwrap(), PointType::I64);
            let error = PointType::try_from(&point.types[1]).unwrap_err();
            assert_eq!(error.kind, ParseErrorKind::UnknownType);
            assert_eq!(error.position, 15);
        }
        Item::Namespace(_) => panic!("a point was declared"),
    }
}

#[test]
fn type_sets_behave_as_sets() {
    let mut one = TypeSet::new();
    assert!(one.insert(PointType::U8));
    assert!(!one.insert(PointType::U8));
    assert!(one.insert(PointType::U16));
    assert!(one.contains(PointType::U8));
    assert!(!one.contains(PointType::String));
    let mut other = TypeSet::new();
    other.insert(PointType::U16);
    other.insert(PointType::String);
    let mut left = one.clone();
    left.extend(&other);
    let mut right = other.clone();
    right.extend(&one);
    let mut left = left.to_vec();
    left.sort();
    let mut right = right.to_vec();
    right.sort();
    assert_eq!(left, right);
    assert_eq!(left, vec![PointType::String, PointType::U8, PointType::U16]);
}

fn point(name: &str, types: &[PointType]) -> Point {
    let mut set = TypeSet::new();
    for point_type in types {
        set.insert(*point_type);
    }
    Point { types: set, name: String::from(name), full_name: String::new() }
}

#[test]
fn points_merge_their_types() {
    let mut one = point("a", &[PointType::U8]);
    one.merge(point("a", &[PointType::I8, PointType::U8]));
    let mut types = one.types.to_vec();
    types.sort();
    assert_eq!(types, vec![PointType::U8, PointType::I8]);
    assert_eq!(one.name, "a");
}

#[test]
fn namespaces_combine_their_points() {
    let mut one = Namespace::new(String::from("x/y"));
    assert_eq!(one.name, "x/y");
    assert!(one.points.is_empty());
    one.add_point(point("p", &[PointType::U8]));
    let mut other = Namespace::new(String::from("x/y"));
    other.add_point(point("q", &[PointType::I32]));
    other.add_point(point("p", &[PointType::U16]));
    one.combine(other);
    assert_eq!(one.points.len(), 2);
    let p = &one.points[one.position("p").unwrap()];
    let mut types = p.types.to_vec();
    types.sort();
    assert_eq!(types, vec![PointType::U8, PointType::U16]);
    assert_eq!(p.full_name, "x/y/p");
    let q = &one.points[one.position("q").unwrap()];
    assert_eq!(q.types.to_vec(), vec![PointType::I32]);
    assert_eq!(q.full_name, "x/y/q");
    assert!(one.position("r").is_none());
}

#[test]
fn points_and_namespaces_are_told_apart_by_their_full_names() {
    let schema = parse("a { - p: u8  - q: u8 } b { - p: u8 }").unwrap();
    let again = parse("a { - p: string }").unwrap();
    let p = schema.lookup_point("a/p").unwrap();
    assert!(p == again.lookup_point("a/p").unwrap());
    assert!(p != schema.lookup_point("a/q").unwrap());
    assert!(p != schema.lookup_point("b/p").unwrap());
    assert!(schema.namespaces()[0] == again.namespaces()[0]);
    assert!(schema.namespaces()[0] != schema.namespaces()[1]);
    let mut hashes = std::collections::HashSet::new();
    hashes.insert(p);
    assert!(hashes.contains(again.lookup_point("a/p").unwrap()));
    assert!(!hashes.contains(schema.lookup_point("b/p").unwrap()));
}

#[test]
fn a_schema_can_be_made_of_namespaces() {
    let mut namespace = Namespace::new(String::from("n"));
    namespace.add_point(point("p", &[PointType::Boolean]));
    let schema = Schema::new(vec![namespace]);
    assert_eq!(schema.len(), 1);
    assert_eq!(types_of(&schema, "n/p"), vec![PointType::Boolean]);
}
