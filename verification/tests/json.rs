use owners::json::{from_str, to_string_pretty, RosterError};
use owners::permissions::Permissions;

type Entries = Vec<(String, Vec<(String, Vec<String>)>)>;

fn names(list: &[&str]) -> Vec<String> {
    list.iter().map(|s| s.to_string()).collect()
}

fn roster(list: &[(&str, &[(&str, &[&str])])]) -> Entries {
    list.iter()
        .map(|(g, envs)| {
            (g.to_string(), envs.iter().map(|(e, users)| (e.to_string(), names(users))).collect())
        })
        .collect()
}

#[test]
fn from_str_reads_groups_environments_users() {
    let p = from_str("{\"g1\": {\"e1\": [\"a\", \"b\"]}, \"g2\": {\"e1\": [\"b\", \"c\"]}}").unwrap();
    assert_eq!(p.to_entries(), roster(&[("g1", &[("e1", &["a", "b"])]), ("g2", &[("e1", &["b", "c"])])]));
}

#[test]
fn from_str_reads_in_any_order() {
    let p = from_str("{\"g2\":{\"e2\":[\"d\",\"c\"],\"e1\":[]},\"g1\":{\"e1\":[\"b\",\"a\",\"b\"]}}").unwrap();
    assert_eq!(
        p.to_entries(),
        roster(&[("g1", &[("e1", &["a", "b"])]), ("g2", &[("e1", &[]), ("e2", &["c", "d"])])])
    );
}

#[test]
fn from_str_reads_empty_shapes() {
    assert_eq!(from_str("{}").unwrap().to_entries(), Entries::new());
    assert_eq!(from_str(" { \"g\" : { } } ").unwrap().to_entries(), roster(&[("g", &[])]));
    assert_eq!(from_str("{\"g\":{\"e\":[]}}").unwrap().to_entries(), roster(&[("g", &[("e", &[])])]));
}

#[test]
fn from_str_reads_escapes() {
    let p = from_str("{\"g\\\"1\":{\"e\\n\":[\"\\u00e9\", \"tab\\t\"]}}").unwrap();
    assert_eq!(p.to_entries(), roster(&[("g\"1", &[("e\n", &["tab\t", "é"])])]));
}

#[test]
fn from_str_last_duplicate_key_wins() {
    let p = from_str("{\"g\":{\"e\":[\"a\"]},\"g\":{\"f\":[\"b\"]}}").unwrap();
    assert_eq!(p.to_entries(), roster(&[("g", &[("f", &["b"])])]));
}

#[test]
fn malformed_input() {
    assert!(matches!(from_str("{\"g1\": \"not-an-object\"}"), Err(RosterError::Parse(_))));
}

#[test]
fn from_str_rejects_what_is_not_json() {
    assert!(matches!(from_str(""), Err(RosterError::Parse(_))));
    assert!(matches!(from_str("{"), Err(RosterError::Parse(_))));
    assert!(matches!(from_str("not json"), Err(RosterError::Parse(_))));
    assert!(matches!(from_str("{\"g\":{\"e\":[\"a\"]}} trailing"), Err(RosterError::Parse(_))));
    assert!(matches!(from_str("{\"g\":{\"e\":[\"a\",]}}"), Err(RosterError::Parse(_))));
    assert!(matches!(from_str("{g:{}}"), Err(RosterError::Parse(_))));
}

#[test]
fn from_str_rejects_other_shapes() {
    assert!(matches!(from_str("[]"), Err(RosterError::Parse(_))));
    assert!(matches!(from_str("null"), Err(RosterError::Parse(_))));
    assert!(matches!(from_str("\"text\""), Err(RosterError::Parse(_))));
    assert!(matches!(from_str("{\"g\":[]}"), Err(RosterError::Parse(_))));
    assert!(matches!(from_str("{\"g\":null}"), Err(RosterError::Parse(_))));
    assert!(matches!(from_str("{\"g\":{\"e\":{}}}"), Err(RosterError::Parse(_))));
    assert!(matches!(from_str("{\"g\":{\"e\":\"a\"}}"), Err(RosterError::Parse(_))));
    assert!(matches!(from_str("{\"g\":{\"e\":[1]}}"), Err(RosterError::Parse(_))));
    assert!(matches!(from_str("{\"g\":{\"e\":[null]}}"), Err(RosterError::Parse(_))));
    assert!(matches!(from_str("{\"g\":{\"e\":[[\"a\"]]}}"), Err(RosterError::Parse(_))));
}

#[test]
fn parse_error_says_what_is_wrong() {
    match from_str("{\"g1\": \"not-an-object\"}") {
        Err(RosterError::Parse(error)) => {
            assert!(error.is_data());
            assert_eq!(error.line(), 1);
        }
        other => panic!("expected a parse error, got {:?}", other),
    }
    match from_str("{\"g1\": ") {
        Err(RosterError::Parse(error)) => assert!(error.is_eof()),
        other => panic!("expected a parse error, got {:?}", other),
    }
}

#[test]
fn to_string_pretty_of_empty_roster() {
    assert_eq!(to_string_pretty(&Permissions::new()).unwrap(), "{}");
}

#[test]
fn to_string_pretty_indents_by_two() {
    let p = Permissions::from_entries(roster(&[("g1", &[("e1", &["a", "b"]), ("e2", &[])]), ("g2", &[])]));
    assert_eq!(
        to_string_pretty(&p).unwrap(),
        "{\n  \"g1\": {\n    \"e1\": [\n      \"a\",\n      \"b\"\n    ],\n    \"e2\": []\n  },\n  \"g2\": {}\n}"
    );
}

#[test]
fn to_string_pretty_orders_keys_and_users() {
    let p = Permissions::from_entries(roster(&[
        ("web", &[("prod", &["zoe", "adam"]), ("dev", &["mia"])]),
        ("api", &[("prod", &["bob"])]),
    ]));
    assert_eq!(
        to_string_pretty(&p).unwrap(),
        "{\n  \"api\": {\n    \"prod\": [\n      \"bob\"\n    ]\n  },\n  \"web\": {\n    \"dev\": [\n      \"mia\"\n    ],\n    \"prod\": [\n      \"adam\",\n      \"zoe\"\n    ]\n  }\n}"
    );
}

#[test]
fn to_string_pretty_escapes() {
    let p = Permissions::from_entries(roster(&[("g\"1", &[("e\\", &["a\nb", "é"])])]));
    assert_eq!(
        to_string_pretty(&p).unwrap(),
        "{\n  \"g\\\"1\": {\n    \"e\\\\\": [\n      \"a\\nb\",\n      \"é\"\n    ]\n  }\n}"
    );
}

#[test]
fn print_round_trip_is_stable() {
    let input = "{\"g2\":{\"e1\":[\"c\",\"b\"]},\n\n \"g1\":{\"e2\":[], \"e1\":[\"b\",\"a\",\"a\"]}, \"g0\": {}}";
    let first = to_string_pretty(&from_str(input).unwrap()).unwrap();
    let second = to_string_pretty(&from_str(&first).unwrap()).unwrap();
    assert_eq!(first, second);
    assert_eq!(
        first,
        "{\n  \"g0\": {},\n  \"g1\": {\n    \"e1\": [\n      \"a\",\n      \"b\"\n    ],\n    \"e2\": []\n  },\n  \"g2\": {\n    \"e1\": [\n      \"b\",\n      \"c\"\n    ]\n  }\n}"
    );
}

#[test]
fn print_round_trip_keeps_the_roster() {
    let entries = roster(&[
        ("", &[("", &[""])]),
        ("Müller \"team\"", &[("prod\\eu", &["a\tb", "日本"]), ("dev", &[])]),
        ("empty", &[]),
    ]);
    let p = Permissions::from_entries(entries);
    let text = to_string_pretty(&p).unwrap();
    let q = from_str(&text).unwrap();
    assert_eq!(q.to_entries(), p.to_entries());
    assert_eq!(to_string_pretty(&q).unwrap(), text);
}

#[test]
fn empty_sets_round_trip() {
    let text = "{\n  \"g\": {\n    \"e\": []\n  }\n}";
    let p = from_str(text).unwrap();
    assert_eq!(p.get("g").unwrap().get("e").unwrap().len(), 0);
    assert_eq!(to_string_pretty(&p).unwrap(), text);
}
