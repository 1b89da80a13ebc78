use owners::change::Change;
use owners::command::{apply, deliver, execute, list_users, run, Command, Effect, Opts};
use owners::json::{from_str, RosterError};
use owners::permissions::Permissions;

type Entries = Vec<(String, Vec<(String, Vec<String>)>)>;

fn names(list: &[&str]) -> Vec<String> {
    list.iter().map(|s| s.to_string()).collect()
}

fn roster(list: &[(&str, &[(&str, &[&str])])]) -> Entries {
    list.iter()
        .map(|(g, envs)| {
            (g.to_string(), envs.iter().map(|(e, users)| (e.to_string(), names(users))).collect())
        })
        .collect()
}

fn change(users: &[&str], groups: &[&str], environments: &[&str]) -> Change {
    Change { users: names(users), environments: names(environments), groups: names(groups) }
}

fn opts(command: Command, force: bool) -> Opts {
    Opts { path: "owners.json".to_string(), command, force }
}

const TWO_GROUPS: &str = "{\"g1\": {\"e1\": [\"a\",\"b\"]}, \"g2\": {\"e1\": [\"b\",\"c\"]}}";

#[test]
fn listing_correctness() {
    let p = from_str(TWO_GROUPS).unwrap();
    assert_eq!(list_users(&p), names(&["a", "b", "c"]));
}

#[test]
fn list_users_of_empty_roster() {
    assert_eq!(list_users(&Permissions::new()), Vec::<String>::new());
    let p = Permissions::from_entries(roster(&[("g1", &[("e1", &[])]), ("g2", &[])]));
    assert_eq!(list_users(&p), Vec::<String>::new());
}

#[test]
fn list_users_merges_and_sorts() {
    let p = Permissions::from_entries(roster(&[
        ("g1", &[("e1", &["zoe", "bob"]), ("e2", &["bob", "amy"])]),
        ("g2", &[("e1", &["Bob", "amy"])]),
    ]));
    assert_eq!(list_users(&p), names(&["Bob", "amy", "bob", "zoe"]));
}

#[test]
fn apply_add_and_remove_change_the_roster() {
    let mut p = Permissions::from_entries(roster(&[("g1", &[("e1", &["a"])])]));
    apply(&mut p, &Command::Add(change(&["b"], &[], &[])));
    assert_eq!(p.to_entries(), roster(&[("g1", &[("e1", &["a", "b"])])]));
    apply(&mut p, &Command::Remove(change(&["a"], &[], &[])));
    assert_eq!(p.to_entries(), roster(&[("g1", &[("e1", &["b"])])]));
}

#[test]
fn apply_list_and_print_change_nothing() {
    let mut p = Permissions::from_entries(roster(&[("g1", &[("e1", &["a"])])]));
    apply(&mut p, &Command::List);
    assert_eq!(p.to_entries(), roster(&[("g1", &[("e1", &["a"])])]));
    apply(&mut p, &Command::Print);
    assert_eq!(p.to_entries(), roster(&[("g1", &[("e1", &["a"])])]));
}

#[test]
fn deliver_goes_by_force() {
    assert!(matches!(
        deliver(&opts(Command::Print, true), "text".to_string()),
        Effect::WriteFile { path, text } if path == "owners.json" && text == "text"
    ));
    assert!(matches!(
        deliver(&opts(Command::Print, false), "text".to_string()),
        Effect::PrintDocument(text) if text == "text"
    ));
}

#[test]
fn execute_list_prints_users() {
    let p = from_str(TWO_GROUPS).unwrap();
    match execute(&opts(Command::List, false), p) {
        Ok(Effect::PrintUsers(users)) => assert_eq!(users, names(&["a", "b", "c"])),
        other => panic!("unexpected outcome {:?}", other),
    }
}

#[test]
fn execute_print_writes_canonical_text() {
    let p = Permissions::from_entries(roster(&[("g", &[("e", &["b", "a"])])]));
    match execute(&opts(Command::Print, true), p) {
        Ok(Effect::WriteFile { path, text }) => {
            assert_eq!(path, "owners.json");
            assert_eq!(text, "{\n  \"g\": {\n    \"e\": [\n      \"a\",\n      \"b\"\n    ]\n  }\n}")
        }
        other => panic!("unexpected outcome {:?}", other),
    }
}

#[test]
fn run_list_prints_users_in_order() {
    match run(&opts(Command::List, false), TWO_GROUPS) {
        Ok(Effect::PrintUsers(users)) => assert_eq!(users, names(&["a", "b", "c"])),
        other => panic!("unexpected outcome {:?}", other),
    }
}

#[test]
fn run_list_never_rewrites_the_file() {
    match run(&opts(Command::List, true), TWO_GROUPS) {
        Ok(Effect::PrintUsers(users)) => assert_eq!(users, names(&["a", "b", "c"])),
        other => panic!("unexpected outcome {:?}", other),
    }
}

#[test]
fn run_print_without_force_goes_to_stdout() {
    match run(&opts(Command::Print, false), "{\"g\":{\"e\":[\"b\",\"a\"]}}") {
        Ok(Effect::PrintDocument(text)) => {
            assert_eq!(text, "{\n  \"g\": {\n    \"e\": [\n      \"a\",\n      \"b\"\n    ]\n  }\n}")
        }
        other => panic!("unexpected outcome {:?}", other),
    }
}

#[test]
fn run_print_with_force_overwrites() {
    match run(&opts(Command::Print, true), "{\"g\":{\"e\":[\"b\",\"a\"]}}") {
        Ok(Effect::WriteFile { path, text }) => {
            assert_eq!(path, "owners.json");
            assert_eq!(text, "{\n  \"g\": {\n    \"e\": [\n      \"a\",\n      \"b\"\n    ]\n  }\n}")
        }
        other => panic!("unexpected outcome {:?}", other),
    }
}

#[test]
fn run_add_scoped_to_group() {
    let command = Command::Add(change(&["u1"], &["g1"], &[]));
    match run(&opts(command, false), "{\"g1\":{\"e1\":[]}, \"g2\":{\"e1\":[]}}") {
        Ok(Effect::PrintDocument(text)) => assert_eq!(
            text,
            "{\n  \"g1\": {\n    \"e1\": [\n      \"u1\"\n    ]\n  },\n  \"g2\": {\n    \"e1\": []\n  }\n}"
        ),
        other => panic!("unexpected outcome {:?}", other),
    }
}

#[test]
fn run_remove_with_force() {
    let command = Command::Remove(change(&["b"], &[], &["E1"]));
    match run(&opts(command, true), TWO_GROUPS) {
        Ok(Effect::WriteFile { path: _, text }) => assert_eq!(
            text,
            "{\n  \"g1\": {\n    \"e1\": [\n      \"a\"\n    ]\n  },\n  \"g2\": {\n    \"e1\": [\n      \"c\"\n    ]\n  }\n}"
        ),
        other => panic!("unexpected outcome {:?}", other),
    }
}

#[test]
fn run_unmatched_filter_succeeds_unchanged() {
    let command = Command::Add(change(&["u1"], &["nonexistent"], &[]));
    match run(&opts(command, false), "{\"g1\":{\"e1\":[\"a\"]}}") {
        Ok(Effect::PrintDocument(text)) => {
            assert_eq!(text, "{\n  \"g1\": {\n    \"e1\": [\n      \"a\"\n    ]\n  }\n}")
        }
        other => panic!("unexpected outcome {:?}", other),
    }
}

#[test]
fn run_malformed_input_fails_for_every_command() {
    let bad = "{\"g1\": \"not-an-object\"}";
    assert!(matches!(run(&opts(Command::List, false), bad), Err(RosterError::Parse(_))));
    assert!(matches!(run(&opts(Command::Print, false), bad), Err(RosterError::Parse(_))));
    assert!(matches!(run(&opts(Command::Print, true), bad), Err(RosterError::Parse(_))));
    assert!(matches!(
        run(&opts(Command::Add(change(&["u"], &[], &[])), true), bad),
        Err(RosterError::Parse(_))
    ));
    assert!(matches!(
        run(&opts(Command::Remove(change(&["u"], &[], &[])), false), bad),
        Err(RosterError::Parse(_))
    ));
}

#[test]
fn run_print_twice_is_stable() {
    let input = "{\"b\":{\"y\":[\"2\",\"1\"],\"x\":[]},\"a\":{}}";
    let first = match run(&opts(Command::Print, false), input) {
        Ok(Effect::PrintDocument(text)) => text,
        other => panic!("unexpected outcome {:?}", other),
    };
    let second = match run(&opts(Command::Print, false), &first) {
        Ok(Effect::PrintDocument(text)) => text,
        other => panic!("unexpected outcome {:?}", other),
    };
    assert_eq!(first, second);
}
