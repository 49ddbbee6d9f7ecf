use envcheck::env_map::EnvMap;
use envcheck::order::{insert_ascending, rank_of, search, Rank};

fn samples() -> Vec<&'static str> {
    vec![
        "", "A", "AB", "ABC", "B", "a", "ab", "b", "Z", "_", "_a", "0", "10", "9", "é", "e", "ez",
        "z", "\u{7f}", "\u{80}", "\u{7ff}", "\u{800}", "\u{ffff}", "\u{10000}", "\u{10ffff}",
        "a\u{10000}", "a\u{ffff}", "✓", "✓✓",
    ]
}

fn strings(items: &[&str]) -> Vec<String> {
    items.iter().map(|s| s.to_string()).collect()
}

#[test]
fn rank_follows_the_order_of_strings() {
    for a in samples() {
        for b in samples() {
            let expected = if a < b {
                Rank::Before
            } else if a == b {
                Rank::Same
            } else {
                Rank::After
            };
            assert_eq!(rank_of(a, b), expected, "{:?} against {:?}", a, b);
        }
    }
}

#[test]
fn rank_of_prefix_and_first_difference() {
    assert_eq!(rank_of("", ""), Rank::Same);
    assert_eq!(rank_of("", "a"), Rank::Before);
    assert_eq!(rank_of("a", ""), Rank::After);
    assert_eq!(rank_of("abc", "abd"), Rank::Before);
    assert_eq!(rank_of("abd", "abc"), Rank::After);
    assert_eq!(rank_of("ab", "abc"), Rank::Before);
    assert_eq!(rank_of("B", "a"), Rank::Before);
    assert_eq!(rank_of("abc", "abc"), Rank::Same);
}

#[test]
fn search_finds_each_string_and_each_gap() {
    let list = strings(&["B", "D", "F", "H"]);
    assert_eq!(search(&list, "B"), Ok(0));
    assert_eq!(search(&list, "D"), Ok(1));
    assert_eq!(search(&list, "F"), Ok(2));
    assert_eq!(search(&list, "H"), Ok(3));
    assert_eq!(search(&list, "A"), Err(0));
    assert_eq!(search(&list, "C"), Err(1));
    assert_eq!(search(&list, "E"), Err(2));
    assert_eq!(search(&list, "G"), Err(3));
    assert_eq!(search(&list, "I"), Err(4));
    assert_eq!(search(&[], "A"), Err(0));
}

#[test]
fn insert_keeps_list_ascending_and_unique() {
    let mut list: Vec<String> = Vec::new();
    for s in samples().iter().rev() {
        insert_ascending(&mut list, s.to_string());
        insert_ascending(&mut list, s.to_string());
    }
    for s in ["b", "a", "b", "", "✓"] {
        insert_ascending(&mut list, s.to_string());
    }
    let mut expected = strings(&samples());
    expected.sort();
    expected.dedup();
    assert_eq!(list, expected);
}

#[test]
fn map_holds_last_value_of_each_key() {
    let mut map = EnvMap::new();
    assert!(map.keys().is_empty());
    assert_eq!(map.get("A"), None);
    map.insert("B".to_string(), "1".to_string());
    map.insert("A".to_string(), "2".to_string());
    map.insert("C".to_string(), "3".to_string());
    map.insert("B".to_string(), "4".to_string());
    assert_eq!(map.keys(), strings(&["A", "B", "C"]));
    assert_eq!(map.get("A"), Some(&"2".to_string()));
    assert_eq!(map.get("B"), Some(&"4".to_string()));
    assert_eq!(map.get("C"), Some(&"3".to_string()));
    assert_eq!(map.get("D"), None);
    assert!(map.contains_key("B"));
    assert!(!map.contains_key("b"));
    let copy = map.clone();
    map.insert("A".to_string(), "5".to_string());
    assert_eq!(copy.get("A"), Some(&"2".to_string()));
    assert_eq!(map.get("A"), Some(&"5".to_string()));
    assert_eq!(copy.keys(), map.keys());
}
