use broker::SubscriptionSet;

#[test]
pub fn subscription_it_works() {
    let source = vec![
        String::from("some_namespace/*"),
        String::from("some_other_namespace/**/specific_point"),
    ];

    let set = SubscriptionSet::new(source).unwrap();

    assert!(set.matches("some_namespace/a_point"));
    assert!(!set.matches("some_namespace/nested/a_point"));

    assert!(set.matches("some_other_namespace/nested/very/deep/specific_point"));
    assert!(set.matches("some_other_namespace/specific_point"));
    assert!(!set.matches("some_other_namespace/a_point"));
}

#[test]
fn an_empty_set_matches_nothing() {
    let set = SubscriptionSet::empty();
    for candidate in ["", "a", "a/b", "*", "**", "first_namespace/some_value"] {
        assert!(!set.matches(candidate));
    }
    assert!(set.patterns().is_empty());
    let set = SubscriptionSet::new(vec![]).unwrap();
    assert!(!set.matches("anything"));
}

#[test]
fn matching_ignores_the_case_of_the_candidate() {
    let mut set = SubscriptionSet::empty();
    set.insert_point("FIRST_NAMESPACE/*").unwrap();
    assert!(set.matches("first_namespace/some_value"));
    assert!(set.matches("First_Namespace/Some_Value"));
    assert!(set.matches("FIRST_NAMESPACE/SOME_VALUE"));
    assert!(!set.matches("second_namespace/some_value"));

    let mut set = SubscriptionSet::empty();
    set.insert_point("a/[b-d]x").unwrap();
    for candidate in ["a/cx", "A/CX", "a/Cx", "A/cX"] {
        assert!(set.matches(candidate));
    }
    for candidate in ["a/ex", "A/EX"] {
        assert!(!set.matches(candidate));
    }
}

#[test]
fn only_ascii_letters_are_folded() {
    let set = SubscriptionSet::new(vec![String::from("a/\u{e9}*")]).unwrap();
    assert!(set.matches("a/\u{e9}x"));
    assert!(set.matches("A/\u{e9}X"));
    assert!(!set.matches("a/\u{c9}x"));
}

#[test]
fn a_star_stays_within_one_segment() {
    let set = SubscriptionSet::new(vec![String::from("a/*")]).unwrap();
    assert!(set.matches("a/b"));
    assert!(set.matches("a/"));
    assert!(!set.matches("a/b/c"));
    assert!(!set.matches("a"));
    let set = SubscriptionSet::new(vec![String::from("*")]).unwrap();
    assert!(set.matches("a"));
    assert!(!set.matches("a/b"));
    let set = SubscriptionSet::new(vec![String::from("a/?")]).unwrap();
    assert!(set.matches("a/b"));
    assert!(!set.matches("a//"));
}

#[test]
fn a_double_star_spans_any_number_of_segments() {
    let set = SubscriptionSet::new(vec![String::from("a/**/z")]).unwrap();
    assert!(set.matches("a/z"));
    assert!(set.matches("a/b/z"));
    assert!(set.matches("a/b/c/d/z"));
    assert!(!set.matches("a/b/c"));
    let set = SubscriptionSet::new(vec![String::from("**")]).unwrap();
    assert!(set.matches("a"));
    assert!(set.matches("a/b/c"));
}

#[test]
fn insert_point_adds_a_pattern_once() {
    let mut set = SubscriptionSet::empty();
    set.insert_point("a/*").unwrap();
    set.insert_point("b/*").unwrap();
    set.insert_point("a/*").unwrap();
    assert_eq!(set.patterns(), &vec![String::from("a/*"), String::from("b/*")]);
    assert!(set.matches("a/1"));
    assert!(set.matches("b/2"));
    assert!(!set.matches("c/3"));
}

#[test]
fn new_takes_each_pattern_once() {
    let set = SubscriptionSet::new(vec![
        String::from("b"),
        String::from("a"),
        String::from("b"),
    ])
    .unwrap();
    assert_eq!(set.patterns(), &vec![String::from("b"), String::from("a")]);
}

#[test]
fn a_refused_pattern_leaves_the_set_as_it_was() {
    let mut set = SubscriptionSet::empty();
    set.insert_point("a/*").unwrap();
    for bad in ["a/[b", "{a,b", "a}", "a\\"] {
        let error = set.insert_point(bad).unwrap_err();
        assert!(!error.message.is_empty());
        assert_eq!(set.patterns(), &vec![String::from("a/*")]);
        assert!(set.matches("a/b"));
    }
    set.insert_point("c").unwrap();
    assert!(set.matches("c"));
    assert!(SubscriptionSet::new(vec![String::from("ok"), String::from("[")]).is_err());
}

#[test]
fn a_backslash_escapes_a_star() {
    let set = SubscriptionSet::new(vec![String::from("a\\*b")]).unwrap();
    assert!(set.matches("a*b"));
    assert!(!set.matches("axb"));
}
