use ts_bnf_tool::names::{contains_name, name_eq, name_less, sort_names, NameSet};

#[test]
fn name_order_matches_str_order() {
    let pairs = [
        ("a", "b"),
        ("B", "a"),
        ("a", "a_"),
        ("a_b", "ab"),
        ("", "x"),
        ("abc", "abd"),
        ("Z9", "Z_"),
        ("é", "z"),
    ];
    for (x, y) in pairs {
        assert_eq!(name_less(x, y), x < y, "{x} vs {y}");
        assert_eq!(name_less(y, x), y < x, "{y} vs {x}");
    }
    assert!(!name_less("same", "same"));
}

#[test]
fn name_equality() {
    assert!(name_eq("rule", "rule"));
    assert!(!name_eq("rule", "rules"));
    assert!(!name_eq("", "a"));
}

#[test]
fn sort_names_sorts_like_std() {
    let input: Vec<String> = ["term", "Expr", "_x", "expr", "a1", "a"]
        .iter()
        .map(|s| s.to_string())
        .collect();
    let mut expected = input.clone();
    expected.sort();
    assert_eq!(sort_names(input), expected);
}

#[test]
fn name_set_operations() {
    let mut s = NameSet::new();
    assert!(s.is_empty());
    assert!(s.insert("b".to_string()));
    assert!(s.insert("a".to_string()));
    assert!(!s.insert("b".to_string()));
    assert_eq!(s.len(), 2);
    assert!(s.contains("a"));
    assert!(!s.contains("c"));
    assert_eq!(s.sorted(), vec!["a".to_string(), "b".to_string()]);
    assert!(contains_name(s.items(), "b"));
}
