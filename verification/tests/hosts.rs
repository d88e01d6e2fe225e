use hocus_focus::domains::DomainSet;
use hocus_focus::hosts::{modify_hosts_content, BLOCK_END, BLOCK_START};

fn set_of(names: &[&str]) -> DomainSet {
    let mut domains = DomainSet::new();
    for n in names {
        domains.insert(n.to_string());
    }
    domains
}

#[test]
fn test_modify_hosts_content_add() {
    let initial = "127.0.0.1 localhost\n255.255.255.255 broadcasthost\n";
    let mut domains = DomainSet::new();
    domains.insert("reddit.com".to_string());
    domains.insert("youtube.com".to_string());

    let result = modify_hosts_content(initial, &domains);

    let expected_contains_1 = "127.0.0.1 localhost";
    let expected_contains_2 = "# BEGIN HOCUS-FOCUS BLOCKED WEBSITES\n127.0.0.1 reddit.com\n::1 reddit.com\n127.0.0.1 youtube.com\n::1 youtube.com\n# END HOCUS-FOCUS BLOCKED WEBSITES\n";

    assert!(result.contains(expected_contains_1));
    assert!(result.contains(expected_contains_2));
}

#[test]
fn test_modify_hosts_content_remove() {
    let initial = "127.0.0.1 localhost\n# BEGIN HOCUS-FOCUS BLOCKED WEBSITES\n127.0.0.1 reddit.com\n# END HOCUS-FOCUS BLOCKED WEBSITES\n";
    let domains = DomainSet::new();

    let result = modify_hosts_content(initial, &domains);

    assert!(result.contains("127.0.0.1 localhost"));
    assert!(!result.contains("# BEGIN HOCUS-FOCUS BLOCKED WEBSITES"));
    assert!(!result.contains("reddit.com"));
}

#[test]
fn modify_writes_exact_file() {
    let initial = "127.0.0.1 localhost\n255.255.255.255 broadcasthost\n\n\n";
    let domains = set_of(&["youtube.com", "reddit.com"]);
    let result = modify_hosts_content(initial, &domains);
    assert_eq!(
        result,
        "127.0.0.1 localhost\n255.255.255.255 broadcasthost\n# BEGIN HOCUS-FOCUS BLOCKED WEBSITES\n127.0.0.1 reddit.com\n::1 reddit.com\n127.0.0.1 youtube.com\n::1 youtube.com\n# END HOCUS-FOCUS BLOCKED WEBSITES\n"
    );
}

#[test]
fn modify_without_domains_only_normalizes_end() {
    assert_eq!(modify_hosts_content("a\nb  \t\n\n", &DomainSet::new()), "a\nb\n");
    assert_eq!(modify_hosts_content("", &DomainSet::new()), "\n");
}

#[test]
fn modify_empty_file_with_domains() {
    let result = modify_hosts_content("", &set_of(&["x.com"]));
    assert_eq!(
        result,
        "\n# BEGIN HOCUS-FOCUS BLOCKED WEBSITES\n127.0.0.1 x.com\n::1 x.com\n# END HOCUS-FOCUS BLOCKED WEBSITES\n"
    );
}

#[test]
fn modify_replaces_existing_section() {
    let initial = "127.0.0.1 localhost\n  # BEGIN HOCUS-FOCUS BLOCKED WEBSITES  \n127.0.0.1 old.com\n::1 old.com\n# END HOCUS-FOCUS BLOCKED WEBSITES\n10.0.0.1 nas\n";
    let result = modify_hosts_content(initial, &set_of(&["new.com"]));
    assert_eq!(
        result,
        "127.0.0.1 localhost\n10.0.0.1 nas\n# BEGIN HOCUS-FOCUS BLOCKED WEBSITES\n127.0.0.1 new.com\n::1 new.com\n# END HOCUS-FOCUS BLOCKED WEBSITES\n"
    );
}

#[test]
fn modify_keeps_markers_in_wrong_order() {
    // The last opening line comes after the last closing line: nothing is removed.
    let initial = "# END HOCUS-FOCUS BLOCKED WEBSITES\nkeep\n# BEGIN HOCUS-FOCUS BLOCKED WEBSITES\n";
    let result = modify_hosts_content(initial, &DomainSet::new());
    assert_eq!(result, "# END HOCUS-FOCUS BLOCKED WEBSITES\nkeep\n# BEGIN HOCUS-FOCUS BLOCKED WEBSITES\n");
}

#[test]
fn modify_removes_only_last_section() {
    let initial = "a\n# BEGIN HOCUS-FOCUS BLOCKED WEBSITES\nx\n# END HOCUS-FOCUS BLOCKED WEBSITES\nb\n# BEGIN HOCUS-FOCUS BLOCKED WEBSITES\ny\n# END HOCUS-FOCUS BLOCKED WEBSITES\n";
    let result = modify_hosts_content(initial, &DomainSet::new());
    assert_eq!(result, "a\n# BEGIN HOCUS-FOCUS BLOCKED WEBSITES\nx\n# END HOCUS-FOCUS BLOCKED WEBSITES\nb\n");
}

#[test]
fn modify_turns_crlf_into_lf() {
    let result = modify_hosts_content("a\r\nb\r\n", &DomainSet::new());
    assert_eq!(result, "a\nb\n");
    // A carriage return not followed by a newline stays part of its line.
    let result = modify_hosts_content("a\rb", &DomainSet::new());
    assert_eq!(result, "a\rb\n");
}

#[test]
fn rewriting_replaces_section() {
    let original = "127.0.0.1 localhost\n::1 localhost\n";
    let first = modify_hosts_content(original, &set_of(&["a.com", "b.com"]));
    let second = modify_hosts_content(&first, &set_of(&["c.com"]));
    assert_eq!(second, modify_hosts_content(original, &set_of(&["c.com"])));
    let again = modify_hosts_content(&second, &set_of(&["c.com"]));
    assert_eq!(again, second);
}

#[test]
fn clearing_section_leaves_no_trace() {
    let original = "127.0.0.1 localhost\n::1 localhost\n";
    let blocked = modify_hosts_content(original, &set_of(&["reddit.com"]));
    assert!(blocked.contains(BLOCK_START));
    let cleared = modify_hosts_content(&blocked, &DomainSet::new());
    assert_eq!(cleared, original);
    assert!(!cleared.contains(BLOCK_START));
    assert!(!cleared.contains(BLOCK_END));
}

#[test]
fn domains_are_listed_in_ascending_order() {
    let result = modify_hosts_content("h\n", &set_of(&["b.com", "a.com", "B.com", "é.com"]));
    let order: Vec<&str> = result
        .lines()
        .filter(|l| l.starts_with("127.0.0.1 "))
        .map(|l| &l[10..])
        .collect();
    assert_eq!(order, vec!["B.com", "a.com", "b.com", "é.com"]);
}

#[test]
fn clearing_keeps_a_lone_carriage_return() {
    let original = "a\rb\n";
    let blocked = modify_hosts_content(original, &set_of(&["x.com"]));
    let cleared = modify_hosts_content(&blocked, &DomainSet::new());
    assert_eq!(cleared, original);
}

#[test]
fn clearing_then_rewriting_a_file_with_one_section() {
    let with_section = modify_hosts_content("h\n", &set_of(&["a.com"]));
    let cleared = modify_hosts_content(&with_section, &DomainSet::new());
    assert_eq!(cleared, "h\n");
    let rewritten = modify_hosts_content(&cleared, &set_of(&["b.com"]));
    assert_eq!(rewritten, modify_hosts_content(&with_section, &set_of(&["b.com"])));
}

#[test]
fn clearing_drops_carriage_returns_only_in_trailing_whitespace() {
    let original = "a\n \r\r\n\r\n";
    let blocked = modify_hosts_content(original, &set_of(&["x.com"]));
    let cleared = modify_hosts_content(&blocked, &DomainSet::new());
    assert_eq!(cleared, "a\n");
}
