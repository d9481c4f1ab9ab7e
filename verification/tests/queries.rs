use broker::{Query, QueryPart};

#[test]
pub fn matches_exact() {
    let query = Query::new("test.namespace");

    assert!(query.matches_exact("test.namespace"));

    assert!(!query.matches_exact("test"));
    assert!(!query.matches_exact("test."));
    assert!(!query.matches_exact("*"));
}

#[test]
pub fn matches_partial() {
    let query = Query::new("test.namespace");

    assert!(query.matches_partial("test"));
    assert!(query.matches_partial("test.namespace"));
    assert!(query.matches_partial("test.namespace.inner"));

    assert!(!query.matches_partial("asd"));
    assert!(!query.matches_partial("asd.test"));
    assert!(!query.matches_partial("asd.namespace"));
    assert!(!query.matches_partial("asd.test.namespace"));
}

#[test]
pub fn matches_partial_wildcard() {
    let query = Query::new("test.namespace");

    assert!(query.matches_partial("*"));
    assert!(query.matches_partial("*.namespace"));
    assert!(query.matches_partial("test.*"));
    assert!(query.matches_partial("test.*.asd"));

    assert!(!query.matches_partial("*.asd"));

    let query = Query::new("test.namespace.inner");

    assert!(query.matches_partial("test.namespace.inner"));
    assert!(query.matches_partial("test.*.inner"));

    assert!(!query.matches_partial("test.*.asd"));
}

fn part_count(name: &str) -> usize {
    Query::new(name).get_parts().len()
}

#[test]
fn names_split_at_their_dots() {
    assert_eq!(part_count(""), 1);
    assert_eq!(part_count("one"), 1);
    assert_eq!(part_count("one.two"), 2);
    assert_eq!(part_count("one."), 2);
    assert_eq!(part_count(".one"), 2);
    assert_eq!(part_count("."), 2);
    assert_eq!(part_count("a..b"), 3);
    assert_eq!(part_count("caf\u{e9}.\u{1f496}"), 2);
}

#[test]
fn a_lone_star_is_the_wildcard() {
    let star = Query::new("*.**.x*.");
    let parts: Vec<QueryPart> = star.get_parts();
    assert!(parts[0].is_wildcard());
    assert!(!parts[1].is_wildcard());
    assert!(!parts[2].is_wildcard());
    assert!(!parts[3].is_wildcard());
    assert!(parts[0].matches(&parts[2]));
    assert!(parts[2].matches(&parts[0]));
    assert!(parts[1].matches(&parts[1]));
    assert!(!parts[1].matches(&parts[2]));
}

#[test]
fn empty_parts_match_each_other_only() {
    let query = Query::new("a.");
    assert!(query.matches_partial("a."));
    assert!(!query.matches_partial("a.b"));
    assert!(query.matches_partial("a"));
    assert!(Query::new("").matches_partial(""));
    assert!(!Query::new("").matches_partial("a"));
    assert!(Query::new("").matches_exact(""));
}
