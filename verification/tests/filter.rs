use owners::filter::Filter;

fn names(list: &[&str]) -> Vec<String> {
    list.iter().map(|s| s.to_string()).collect()
}

#[test]
fn empty_filter_selects_everything() {
    let filter = Filter::from_entries(&Vec::new());
    assert!(filter.filter("prod"));
    assert!(filter.filter("PROD"));
    assert!(filter.filter(""));
    assert!(filter.filter("anything at all"));
}

#[test]
fn filter_selects_requested_names_only() {
    let filter = Filter::from_entries(&names(&["prod", "staging"]));
    assert!(filter.filter("prod"));
    assert!(filter.filter("staging"));
    assert!(!filter.filter("dev"));
    assert!(!filter.filter("pro"));
    assert!(!filter.filter("production"));
}

#[test]
fn filter_ignores_case_of_request() {
    let filter = Filter::from_entries(&names(&["PROD"]));
    assert!(filter.filter("prod"));
}

#[test]
fn filter_ignores_case_of_candidate() {
    let filter = Filter::from_entries(&names(&["prod"]));
    assert!(filter.filter("PROD"));
    assert!(filter.filter("Prod"));
    assert!(filter.filter("pRoD"));
}

#[test]
fn filter_requested_prod_matches_candidate_prod() {
    let filter = Filter::from_entries(&names(&["Prod"]));
    assert!(filter.filter("prod"));
    assert!(!filter.filter("dev"));
}

#[test]
fn filter_ignores_case_beyond_ascii() {
    let filter = Filter::from_entries(&names(&["ÄRGER"]));
    assert!(filter.filter("ärger"));
    assert!(filter.filter("Ärger"));
    assert!(!filter.filter("arger"));
}

#[test]
fn filter_with_duplicates_and_mixed_case() {
    let filter = Filter::from_entries(&names(&["Prod", "prod", "PROD", "Dev"]));
    assert!(filter.filter("prod"));
    assert!(filter.filter("DEV"));
    assert!(!filter.filter("qa"));
}

#[test]
fn filter_treats_empty_name_as_a_name() {
    let only_empty = Filter::from_entries(&names(&[""]));
    assert!(only_empty.filter(""));
    assert!(!only_empty.filter("prod"));
    let others = Filter::from_entries(&names(&["prod"]));
    assert!(!others.filter(""));
}

#[test]
fn accepts_compares_as_given() {
    let filter = Filter::from_entries(&names(&["PROD"]));
    assert!(filter.accepts("prod"));
    assert!(!filter.accepts("PROD"));
    assert!(!filter.accepts("dev"));
    let empty = Filter::from_entries(&Vec::new());
    assert!(empty.accepts("PROD"));
}
