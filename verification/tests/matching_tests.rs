use privconf::matching::{find_project_for_dir, select_project};
use privconf::model::{Config, ProjectEntry};

fn project(name: &str, remote: Option<&str>, path: Option<&str>) -> ProjectEntry {
    ProjectEntry {
        name: name.to_string(),
        match_remote: remote.map(|r| r.to_string()),
        match_path: path.map(|p| p.to_string()),
        files: Vec::new(),
        ignored: Vec::new(),
    }
}

#[test]
fn matches_by_remote() {
    let c = Config { project: vec![
        project("proj1", Some("git@github.com:myco/proj1.git"), None),
        project("proj2", Some("git@github.com:other/proj2.git"), None),
    ] };
    let p = find_project_for_dir(&c, "/x", Some("git@github.com:other/proj2.git"), None);
    assert_eq!(p.map(|p| p.name.as_str()), Some("proj2"));
    assert!(find_project_for_dir(&c, "/x", Some("git@github.com:other/unknown.git"), None).is_none());
    assert!(find_project_for_dir(&c, "/x", None, None).is_none());
}

#[test]
fn remote_match_comes_before_path_match() {
    let c = Config { project: vec![
        project("bypath", None, Some("/home/u/Projects/*")),
        project("byremote", Some("myco/myproj"), None),
    ] };
    let p = find_project_for_dir(&c, "/home/u/Projects/myproj", Some("git@github.com:myco/myproj.git"), None);
    assert_eq!(p.map(|p| p.name.as_str()), Some("byremote"));
    let q = find_project_for_dir(&c, "/home/u/Projects/myproj", Some("git@github.com:x/y.git"), None);
    assert_eq!(q.map(|p| p.name.as_str()), Some("bypath"));
}

#[test]
fn path_glob_with_tilde() {
    let c = Config { project: vec![project("work", None, Some("~/Projects/work/*"))] };
    let p = find_project_for_dir(&c, "/home/u/Projects/work/app", None, Some("/home/u"));
    assert_eq!(p.map(|p| p.name.as_str()), Some("work"));
    assert!(find_project_for_dir(&c, "/home/u/Projects/play/app", None, Some("/home/u")).is_none());
    assert!(find_project_for_dir(&c, "/home/u/Projects/work/app", None, None).is_none());
}

#[test]
fn invalid_glob_never_matches() {
    let c = Config { project: vec![project("bad", None, Some("/a/***"))] };
    assert!(find_project_for_dir(&c, "/a/***", None, None).is_none());
    let d = Config { project: vec![project("lit", None, Some("/a/b"))] };
    assert!(find_project_for_dir(&d, "/a/b", None, None).is_some());
}

#[test]
fn matches_dir_uses_either_rule() {
    let p = project("p", Some("myco/p"), Some("/w/*"));
    assert!(p.matches_dir("/w/x", None, None));
    assert!(p.matches_dir("/elsewhere", Some("git@h:myco/p.git"), None));
    assert!(!p.matches_dir("/elsewhere", Some("git@h:other/p.git"), None));
}

#[test]
fn select_by_flags() {
    let c = Config { project: vec![project("a", None, None), project("b", None, None), project("c", Some("z"), None)] };
    assert_eq!(select_project(&c, None, &vec![false, true, true]), Some(1));
    assert_eq!(select_project(&c, Some("xzy"), &vec![true, true, true]), Some(2));
    assert_eq!(select_project(&c, None, &vec![false]), None);
}
