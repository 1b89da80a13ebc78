use owners::order::{rank, Rank};

#[test]
fn rank_orders_by_first_difference() {
    assert_eq!(rank("a", "b"), Rank::Before);
    assert_eq!(rank("b", "a"), Rank::After);
    assert_eq!(rank("abc", "abd"), Rank::Before);
    assert_eq!(rank("abd", "abc"), Rank::After);
}

#[test]
fn rank_puts_prefix_first() {
    assert_eq!(rank("", "a"), Rank::Before);
    assert_eq!(rank("a", ""), Rank::After);
    assert_eq!(rank("prod", "production"), Rank::Before);
    assert_eq!(rank("production", "prod"), Rank::After);
}

#[test]
fn rank_same_names() {
    assert_eq!(rank("", ""), Rank::Same);
    assert_eq!(rank("staging", "staging"), Rank::Same);
    assert_eq!(rank("é", "é"), Rank::Same);
}

#[test]
fn rank_is_by_bytes() {
    assert_eq!(rank("Z", "a"), Rank::Before);
    assert_eq!(rank("z", "é"), Rank::Before);
    assert_eq!(rank("é", "z"), Rank::After);
    assert_eq!(rank("a1", "a_"), Rank::Before);
}

#[test]
fn rank_agrees_with_std() {
    let names = ["", "a", "A", "ab", "b", "é", "日本", "z", "~", "prod", "Prod", "e1", "e10", "e2"];
    for a in names.iter() {
        for b in names.iter() {
            let expected = match a.cmp(b) {
                std::cmp::Ordering::Less => Rank::Before,
                std::cmp::Ordering::Equal => Rank::Same,
                std::cmp::Ordering::Greater => Rank::After,
            };
            assert_eq!(rank(a, b), expected);
        }
    }
}
