use privconf::paths::{backup_path, expand_tilde_str, path_file_name, path_join, starts_with};

#[test]
fn test_backup_path_multi_extension() {
    let path = std::path::PathBuf::from("foo.tar.gz");
    let bak = backup_path(path.to_str().unwrap());
    assert!(bak.ends_with("foo.tar.gz.privconf.bak"), "backup path was: {}", bak);
}

#[test]
fn backup_path_keeps_directory() {
    assert_eq!(backup_path("/repo/mise.local.toml"), "/repo/mise.local.toml.privconf.bak");
    assert_eq!(backup_path("scripts"), "scripts.privconf.bak");
    assert_eq!(backup_path("/repo/scripts/"), "/repo/scripts.privconf.bak");
    assert_eq!(backup_path("a//b/./c"), "a//b/c.privconf.bak");
    assert_eq!(backup_path("/a"), "/a.privconf.bak");
}

#[test]
fn backup_path_edge_cases() {
    assert_eq!(backup_path(""), ".privconf.bak");
    assert_eq!(backup_path("/"), ".privconf.bak");
    assert_eq!(backup_path(".."), ".privconf.bak");
    assert_eq!(backup_path("a/.."), "a/.privconf.bak");
    assert_eq!(backup_path("."), ".privconf.bak");
    assert_eq!(backup_path("./x"), "./x.privconf.bak");
}

#[test]
fn backup_path_agrees_with_std_parent_and_file_name() {
    for p in ["a/b/c.txt", "/x/y", "rel", "a/./b", "./a", "a//b//", "../up", "/x/.."] {
        let path = std::path::Path::new(p);
        let name = path.file_name().map(|n| n.to_string_lossy().to_string()).unwrap_or_default();
        let expected = match path.parent() {
            Some(parent) => parent.join(format!("{name}.privconf.bak")),
            None => std::path::PathBuf::from(format!("{name}.privconf.bak")),
        };
        assert_eq!(backup_path(p), expected.to_string_lossy(), "for {p}");
    }
}

#[test]
fn file_name_matches_std() {
    for p in ["a/b", "a/b/", "a/b/.", "/", "", ".", "..", "a/..", "./a", "x.tar.gz"] {
        let expected = std::path::Path::new(p).file_name().map(|n| n.to_string_lossy().to_string());
        assert_eq!(path_file_name(p).map(|s| s.to_string()), expected, "for {p}");
    }
}

#[test]
fn path_join_matches_std() {
    for (a, b) in [("a", "b"), ("a/", "b"), ("", "b"), ("a", "/b"), ("/", "x"), ("a", "")] {
        let expected = std::path::Path::new(a).join(b);
        assert_eq!(path_join(a, b), expected.to_string_lossy(), "for {a} + {b}");
    }
}

#[test]
fn starts_with_is_by_component() {
    assert!(starts_with("/home/u/proj/file", "/home/u/proj"));
    assert!(starts_with("/home/u/proj/file", "/home/u/proj/"));
    assert!(starts_with("/home//u/./proj", "/home/u/proj"));
    assert!(!starts_with("/home/u/project/file", "/home/u/proj"));
    assert!(!starts_with("/home/u", "/home/u/proj"));
    assert!(!starts_with("home/u", "/home/u"));
    for (p, b) in [("/a/b", "/a"), ("a/b", "a/b/c"), ("./a", "a"), ("/a/b", "/a/b/"), ("x", "")] {
        assert_eq!(starts_with(p, b), std::path::Path::new(p).starts_with(b), "for {p} / {b}");
    }
}

#[test]
fn tilde_expansion() {
    assert_eq!(expand_tilde_str("~/Projects/work/*", Some("/home/u")), "/home/u/Projects/work/*");
    assert_eq!(expand_tilde_str("~", Some("/home/u")), "/home/u");
    assert_eq!(expand_tilde_str("~other/x", Some("/home/u")), "~other/x");
    assert_eq!(expand_tilde_str("~/x", None), "~/x");
    assert_eq!(expand_tilde_str("/abs/~/x", Some("/home/u")), "/abs/~/x");
}

#[test]
fn backup_sits_beside_original() {
    for p in ["/repo/a/b.txt", "rel/x", "x", "/top", "a/./b/", "../up/f"] {
        let bak = backup_path(p);
        let orig = std::path::Path::new(p);
        let b = std::path::Path::new(&bak);
        assert_eq!(b.parent(), orig.parent(), "for {p}");
        let name = format!("{}.privconf.bak", orig.file_name().unwrap().to_string_lossy());
        assert_eq!(b.file_name().unwrap().to_string_lossy(), name, "for {p}");
    }
}

#[test]
fn backup_of_joined_path_is_joined_backup() {
    let cases = [("/home/u/proj", "a/b.txt"), ("/c/", "./b"), ("/c", "x/../y/z.toml"), (".", "f")];
    for (cwd, rel) in cases {
        let lhs = backup_path(&path_join(cwd, rel));
        let rhs = path_join(cwd, &backup_path(rel));
        let l: Vec<_> = std::path::Path::new(&lhs).components().collect();
        let r: Vec<_> = std::path::Path::new(&rhs).components().collect();
        assert_eq!(l, r, "{} vs {}", lhs, rhs);
    }
    assert_eq!(backup_path(&path_join("/home/u/proj", "a/b.txt")), "/home/u/proj/a/b.txt.privconf.bak");
}
