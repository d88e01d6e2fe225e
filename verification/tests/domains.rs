use hocus_focus::domains::DomainSet;

#[test]
fn domain_set_keeps_names_sorted_once() {
    let mut s = DomainSet::new();
    assert!(s.is_empty());
    assert!(s.insert("youtube.com".to_string()));
    assert!(s.insert("reddit.com".to_string()));
    assert!(!s.insert("youtube.com".to_string()));
    assert!(s.insert("abc.com".to_string()));
    assert_eq!(s.len(), 3);
    assert_eq!(s.to_vec(), vec!["abc.com".to_string(), "reddit.com".to_string(), "youtube.com".to_string()]);
    assert_eq!(s.get(1), "reddit.com");
    assert!(s.contains("reddit.com"));
    assert!(!s.contains("reddit.co"));
    assert!(!s.contains(""));
}

#[test]
fn domain_set_order_matches_string_order() {
    let names = ["b", "a", "ab", "", "Z", "ä", "aa", "a\u{10000}", "a\u{FFFF}"];
    let mut s = DomainSet::new();
    for n in names {
        s.insert(n.to_string());
    }
    let mut expected: Vec<String> = names.iter().map(|n| n.to_string()).collect();
    expected.sort();
    expected.dedup();
    assert_eq!(s.to_vec(), expected);
}

#[test]
fn domain_sets_compare_by_names() {
    let mut a = DomainSet::new();
    let mut b = DomainSet::new();
    a.insert("x.com".to_string());
    a.insert("y.com".to_string());
    b.insert("y.com".to_string());
    assert!(!a.same_names(&b));
    b.insert("x.com".to_string());
    assert!(a.same_names(&b));
    assert!(DomainSet::new().same_names(&DomainSet::new()));
}
