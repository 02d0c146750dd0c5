use mac_shell::order::{dedup_strings, sort_strings, str_le};

fn s(v: &[&str]) -> Vec<String> {
    v.iter().map(|x| x.to_string()).collect()
}

#[test]
fn sorting_matches_std() {
    let cases = [
        s(&["b", "a", "B", "", "ab", "a"]),
        s(&["zeta", "Zeta", "é", "e", "ß", "ss"]),
        s(&[]),
    ];
    for c in cases {
        let mut expected = c.clone();
        expected.sort();
        assert_eq!(sort_strings(c), expected);
    }
}

#[test]
fn dedup_drops_adjacent_repeats() {
    assert_eq!(dedup_strings(s(&["a", "a", "b", "a", "a"])), s(&["a", "b", "a"]));
    assert_eq!(dedup_strings(s(&[])), s(&[]));
}

#[test]
fn string_order() {
    assert!(str_le(&"a".to_string(), &"b".to_string()));
    assert!(str_le(&"a".to_string(), &"ab".to_string()));
    assert!(!str_le(&"b".to_string(), &"B".to_string()));
    assert!(str_le(&"x".to_string(), &"x".to_string()));
}
