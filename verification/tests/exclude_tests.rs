use privconf::exclude::{exclude_add, exclude_has_entry, exclude_remove};

#[test]
fn add_appends_once() {
    let c = exclude_add("", "mise.local.toml");
    assert_eq!(c, "mise.local.toml\n");
    assert!(exclude_has_entry(&c, "mise.local.toml"));
    let again = exclude_add(&c, "mise.local.toml");
    assert_eq!(again, c);
}

#[test]
fn add_keeps_existing_lines() {
    let c = "# comment\n*.log\n";
    let r = exclude_add(c, "debug.log");
    assert_eq!(r, "# comment\n*.log\ndebug.log\n");
    assert!(exclude_has_entry(&r, "*.log"));
}

#[test]
fn entry_found_by_trimmed_line() {
    assert!(exclude_has_entry("  debug.log  \n", "debug.log"));
    assert!(!exclude_has_entry("debug.log.bak\n", "debug.log"));
    assert_eq!(exclude_add("  debug.log\r\n", "debug.log"), "  debug.log\r\n");
}

#[test]
fn remove_drops_every_matching_line() {
    let c = "a\ndebug.log\nb\n debug.log \n";
    let r = exclude_remove(c, "debug.log");
    assert_eq!(r, "a\nb");
    assert!(!exclude_has_entry(&r, "debug.log"));
    assert!(exclude_has_entry(&r, "a"));
}

#[test]
fn remove_undoes_add() {
    let c = "x\n";
    let added = exclude_add(c, "scripts");
    assert_eq!(exclude_remove(&added, "scripts"), exclude_remove(c, "scripts"));
    assert_eq!(exclude_remove("", "a"), "");
}

#[test]
fn add_after_unfinished_last_line_starts_a_new_line() {
    let r = exclude_add("a", "b");
    assert_eq!(r, "a\nb\n");
    assert!(exclude_has_entry(&r, "b"));
    assert!(exclude_has_entry(&r, "a"));
}

#[test]
fn add_after_remove_keeps_entry_on_its_own_line() {
    let removed = exclude_remove("a\nold\n", "old");
    assert_eq!(removed, "a");
    let added = exclude_add(&removed, "new");
    assert_eq!(added, "a\nnew\n");
    assert!(exclude_has_entry(&added, "new"));
}

#[test]
fn remove_after_add_restores_lines() {
    let c = "# comment\n*.log";
    let added = exclude_add(c, "scripts");
    let back = exclude_remove(&added, "scripts");
    let got: Vec<&str> = back.lines().collect();
    let want: Vec<&str> = c.lines().collect();
    assert_eq!(got, want);
}
