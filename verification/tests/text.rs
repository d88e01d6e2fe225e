use hocus_focus::text::{chars_lt, chars_of, is_whitespace, join_strings, split_lines, trimmed, trimmed_end};

#[test]
fn whitespace_agrees_with_std() {
    for u in 0u32..=0x10FFFF {
        if let Some(c) = char::from_u32(u) {
            assert_eq!(is_whitespace(c), c.is_whitespace(), "{:#x}", u);
        }
    }
}

#[test]
fn lines_agree_with_std() {
    let samples = [
        "", "\n", "a", "a\n", "a\nb", "a\r\nb\r\n", "a\rb", "a\r", "\r\n", "\n\n", "x\n\ny\n", "foo\r\nbar\n\nbaz\r",
    ];
    for s in samples {
        let ours: Vec<String> = split_lines(&chars_of(s)).iter().map(|l| l.iter().collect()).collect();
        let std: Vec<String> = s.lines().map(|l| l.to_string()).collect();
        assert_eq!(ours, std, "{:?}", s);
    }
}

#[test]
fn trimming_agrees_with_std() {
    for s in ["", "  ", " a b\t", "\u{3000}x\u{85}", "\r\n# X \n"] {
        let t: String = trimmed(&chars_of(s)).iter().collect();
        assert_eq!(t, s.trim());
        let e: String = trimmed_end(&chars_of(s)).iter().collect();
        assert_eq!(e, s.trim_end());
    }
}

#[test]
fn order_agrees_with_std() {
    let samples = ["", "a", "b", "ab", "aa", "B", "é", "\u{10000}", "\u{FFFF}", "a\u{0}"];
    for x in samples {
        for y in samples {
            assert_eq!(chars_lt(&chars_of(x), &chars_of(y)), x < y, "{:?} {:?}", x, y);
        }
    }
}

#[test]
fn joining_strings() {
    let v: Vec<String> = vec!["a".to_string(), "b".to_string(), "c".to_string()];
    assert_eq!(join_strings(&v, ", "), "a, b, c");
    assert_eq!(join_strings(&vec![], ", "), "");
    assert_eq!(join_strings(&vec!["x".to_string()], "-"), "x");
}
