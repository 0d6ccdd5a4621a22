use privconf::text::{
    decimal_string, join_strings, split_lines, str_after_last, str_contains, str_eq, trim_end_matches, trim_str,
};

#[test]
fn trim_matches_std() {
    for s in ["  a b  ", "\t\n x \r\n", "", "   ", "\u{3000}y\u{a0}", "no"] {
        assert_eq!(trim_str(s), s.trim(), "for {s:?}");
    }
}

#[test]
fn lines_match_std() {
    for s in ["a\nb", "a\nb\n", "", "\n", "a\r\nb\r\n", "a\r", "x\n\ny", "a\r\r\n"] {
        let expected: Vec<String> = s.lines().map(|l| l.to_string()).collect();
        assert_eq!(split_lines(s), expected, "for {s:?}");
    }
}

#[test]
fn join_matches_std() {
    let v = vec!["a".to_string(), "b".to_string(), "c".to_string()];
    assert_eq!(join_strings(&v, "\n"), "a\nb\nc");
    assert_eq!(join_strings(&Vec::new(), ", "), "");
    assert_eq!(join_strings(&vec!["x".to_string()], ", "), "x");
}

#[test]
fn contains_matches_std() {
    assert!(str_contains("git@github.com:myco/myproj.git", "myco/myproj"));
    assert!(str_contains("abc", ""));
    assert!(!str_contains("abc", "abcd"));
    assert!(!str_contains("git@github.com:other/unknown.git", "myco/myproj"));
}

#[test]
fn suffix_and_segment() {
    assert_eq!(trim_end_matches("repo.git.git", ".git"), "repo");
    assert_eq!(trim_end_matches("repo", ".git"), "repo");
    assert_eq!(str_after_last("a/b/c", '/'), "c");
    assert_eq!(str_after_last("abc", '/'), "abc");
    assert_eq!(str_after_last("abc/", '/'), "");
}

#[test]
fn equality_and_decimal() {
    assert!(str_eq("same", "same"));
    assert!(!str_eq("same", "sane"));
    assert!(!str_eq("a", "ab"));
    for n in [0usize, 7, 10, 42, 1000, 987654321] {
        assert_eq!(decimal_string(n), n.to_string());
    }
}
