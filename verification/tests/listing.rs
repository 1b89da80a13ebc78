use owners::listing::Listing;

fn names(list: &[&str]) -> Vec<String> {
    list.iter().map(|s| s.to_string()).collect()
}

#[test]
fn new_listing_is_empty() {
    let listing = Listing::new();
    assert_eq!(listing.len(), 0);
    assert!(!listing.contains("a"));
    assert_eq!(listing.users(), Vec::<String>::new());
}

#[test]
fn insert_keeps_ascending_order() {
    let mut listing = Listing::new();
    assert!(listing.insert("carol".to_string()));
    assert!(listing.insert("alice".to_string()));
    assert!(listing.insert("bob".to_string()));
    assert_eq!(listing.users(), names(&["alice", "bob", "carol"]));
    assert_eq!(listing.len(), 3);
}

#[test]
fn insert_twice_is_insert_once() {
    let mut listing = Listing::new();
    assert!(listing.insert("alice".to_string()));
    assert!(!listing.insert("alice".to_string()));
    assert_eq!(listing.users(), names(&["alice"]));
    assert_eq!(listing.len(), 1);
}

#[test]
fn remove_absent_user_changes_nothing() {
    let mut listing = Listing::from_users(names(&["alice", "bob"]));
    assert!(!listing.remove("carol"));
    assert_eq!(listing.users(), names(&["alice", "bob"]));
}

#[test]
fn remove_twice_is_remove_once() {
    let mut listing = Listing::from_users(names(&["alice", "bob"]));
    assert!(listing.remove("alice"));
    assert_eq!(listing.users(), names(&["bob"]));
    assert!(!listing.remove("alice"));
    assert_eq!(listing.users(), names(&["bob"]));
}

#[test]
fn insert_then_remove_restores() {
    let mut listing = Listing::from_users(names(&["alice", "carol"]));
    assert!(listing.insert("bob".to_string()));
    assert!(listing.remove("bob"));
    assert_eq!(listing.users(), names(&["alice", "carol"]));
}

#[test]
fn contains_finds_members_only() {
    let listing = Listing::from_users(names(&["alice", "bob"]));
    assert!(listing.contains("alice"));
    assert!(listing.contains("bob"));
    assert!(!listing.contains("Alice"));
    assert!(!listing.contains(""));
    assert!(!listing.contains("bo"));
}

#[test]
fn from_users_sorts_and_merges() {
    let listing = Listing::from_users(names(&["b", "a", "b", "c", "a"]));
    assert_eq!(listing.users(), names(&["a", "b", "c"]));
    assert_eq!(listing.len(), 3);
}

#[test]
fn users_are_case_sensitive() {
    let listing = Listing::from_users(names(&["bob", "Bob", "BOB"]));
    assert_eq!(listing.users(), names(&["BOB", "Bob", "bob"]));
}

#[test]
fn extend_adds_every_user() {
    let mut listing = Listing::from_users(names(&["b"]));
    listing.extend(&names(&["c", "a", "b", "a"]));
    assert_eq!(listing.users(), names(&["a", "b", "c"]));
    listing.extend(&Vec::new());
    assert_eq!(listing.users(), names(&["a", "b", "c"]));
}

#[test]
fn remove_all_removes_every_user() {
    let mut listing = Listing::from_users(names(&["a", "b", "c", "d"]));
    listing.remove_all(&names(&["d", "x", "b", "b"]));
    assert_eq!(listing.users(), names(&["a", "c"]));
    listing.remove_all(&Vec::new());
    assert_eq!(listing.users(), names(&["a", "c"]));
}

#[test]
fn absorb_is_union() {
    let mut listing = Listing::from_users(names(&["a", "c"]));
    let other = Listing::from_users(names(&["b", "c", "d"]));
    listing.absorb(&other);
    assert_eq!(listing.users(), names(&["a", "b", "c", "d"]));
    assert_eq!(other.users(), names(&["b", "c", "d"]));
}

#[test]
fn listing_holds_many_users() {
    let mut listing = Listing::new();
    for i in (0..200).rev() {
        assert!(listing.insert(format!("user{:03}", i)));
    }
    assert_eq!(listing.len(), 200);
    let users = listing.users();
    for i in 0..200 {
        assert_eq!(users[i], format!("user{:03}", i));
        assert!(listing.contains(&users[i]));
    }
    for i in (0..200).step_by(2) {
        assert!(listing.remove(&format!("user{:03}", i)));
    }
    assert_eq!(listing.len(), 100);
    assert!(!listing.contains("user000"));
    assert!(listing.contains("user001"));
}
