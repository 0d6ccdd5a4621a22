use privconf::error::PrivconfError;
use privconf::model::{Config, LinkedEntry, ProjectEntry, State};

fn s(x: &str) -> String {
    x.to_string()
}

fn strings(xs: &[&str]) -> Vec<String> {
    xs.iter().map(|x| x.to_string()).collect()
}

fn entry(project: &str, file: &str, target: &str) -> LinkedEntry {
    LinkedEntry { project: s(project), file: s(file), target: s(target), skip_worktree: false, ignored: false }
}

#[test]
fn add_files_creates_project_with_remote() {
    let mut c = Config::empty();
    let created = c.add_files("myproj", &strings(&["mise.local.toml"]), Some(s("git@github.com:myco/myproj.git")));
    assert!(created);
    assert_eq!(c.project.len(), 1);
    assert_eq!(c.project[0].name, "myproj");
    assert_eq!(c.project[0].match_remote.as_deref(), Some("git@github.com:myco/myproj.git"));
    assert_eq!(c.project[0].files, strings(&["mise.local.toml"]));
    assert!(c.project[0].ignored.is_empty());
}

#[test]
fn add_files_appends_to_existing_project() {
    let mut c = Config::empty();
    c.add_files("myproj", &strings(&["mise.local.toml"]), None);
    let created = c.add_files("myproj", &strings(&[".env.local", "mise.local.toml"]), Some(s("url")));
    assert!(!created);
    assert_eq!(c.project.len(), 1);
    assert_eq!(c.project[0].files, strings(&["mise.local.toml", ".env.local"]));
    assert_eq!(c.project[0].match_remote.as_deref(), Some("url"));
    c.add_files("myproj", &Vec::new(), Some(s("other")));
    assert_eq!(c.project[0].match_remote.as_deref(), Some("url"));
}

#[test]
fn add_without_files_creates_empty_project() {
    let mut c = Config::empty();
    assert!(c.add_files("myproj", &Vec::new(), Some(s("r"))));
    assert!(c.project[0].files.is_empty());
}

#[test]
fn add_files_twice_is_add_once() {
    let mut a = Config::empty();
    a.add_files("p", &strings(&["x", "y"]), Some(s("r")));
    let once: Vec<Vec<String>> = a.project.iter().map(|p| p.files.clone()).collect();
    a.add_files("p", &strings(&["x", "y"]), Some(s("r")));
    let twice: Vec<Vec<String>> = a.project.iter().map(|p| p.files.clone()).collect();
    assert_eq!(once, twice);
}

#[test]
fn ignore_is_idempotent() {
    let mut c = Config::empty();
    assert!(c.add_ignored("myproj", &strings(&["debug.log"]), Some(s("r"))));
    assert!(!c.add_ignored("myproj", &strings(&["debug.log"]), Some(s("r"))));
    assert_eq!(c.project[0].ignored, strings(&["debug.log"]));
    assert!(c.project[0].files.is_empty());
}

#[test]
fn ignore_appends_to_existing_project() {
    let mut c = Config::empty();
    c.add_files("myproj", &strings(&["mise.local.toml"]), None);
    c.add_ignored("myproj", &strings(&["debug.log"]), Some(s("r")));
    assert_eq!(c.project[0].files.len(), 1);
    assert_eq!(c.project[0].ignored.len(), 1);
    assert_eq!(c.project[0].match_remote, None);
}

#[test]
fn remove_partial_keeps_project() {
    let mut c = Config::empty();
    c.add_files("myproj", &strings(&["mise.local.toml", ".env.local"]), None);
    let r = c.remove_files("myproj", &strings(&["mise.local.toml"]));
    assert!(matches!(r, Ok(false)));
    assert_eq!(c.project[0].files, strings(&[".env.local"]));
}

#[test]
fn remove_last_file_drops_project() {
    let mut c = Config::empty();
    c.add_files("other", &strings(&["a"]), None);
    c.add_files("myproj", &strings(&["mise.local.toml"]), None);
    let r = c.remove_files("myproj", &strings(&["mise.local.toml"]));
    assert!(matches!(r, Ok(true)));
    assert_eq!(c.project.len(), 1);
    assert_eq!(c.project[0].name, "other");
}

#[test]
fn remove_ignored_file_drops_project() {
    let mut c = Config::empty();
    c.add_ignored("myproj", &strings(&["debug.log"]), None);
    assert!(matches!(c.remove_files("myproj", &strings(&["debug.log"])), Ok(true)));
    assert!(c.project.is_empty());
}

#[test]
fn remove_from_unknown_project_fails() {
    let mut c = Config::empty();
    c.add_files("myproj", &strings(&["a"]), None);
    match c.remove_files("nope", &strings(&["a"])) {
        Err(PrivconfError::ProjectNotFound { name }) => assert_eq!(name, "nope"),
        _ => panic!("expected ProjectNotFound"),
    }
    assert_eq!(c.project.len(), 1);
}

#[test]
fn find_project_by_name() {
    let mut c = Config::empty();
    c.add_files("a", &Vec::new(), None);
    c.add_files("b", &Vec::new(), None);
    assert_eq!(c.find_project("b"), Some(1));
    assert_eq!(c.find_project("c"), None);
}

#[test]
fn record_link_replaces_same_file() {
    let mut st = State::empty();
    st.record_link(entry("p", "f", "/r/f"));
    st.record_link(entry("p", "g", "/r/g"));
    let mut again = entry("p", "f", "/r2/f");
    again.skip_worktree = true;
    st.record_link(again);
    assert_eq!(st.linked.len(), 2);
    assert_eq!(st.linked[0].file, "g");
    assert_eq!(st.linked[1].target, "/r2/f");
    assert!(st.linked[1].skip_worktree);
}

#[test]
fn forget_after_record_is_forget() {
    let mut a = State::empty();
    a.record_link(entry("p", "g", "/r/g"));
    let mut b = State::empty();
    b.record_link(entry("p", "g", "/r/g"));
    b.record_link(entry("p", "f", "/r/f"));
    b.forget("p", "f");
    assert_eq!(b.linked.len(), a.linked.len());
    assert_eq!(b.linked[0].file, "g");
    b.forget("p", "f");
    assert_eq!(b.linked.len(), 1);
}

#[test]
fn entries_and_queries_under_directory() {
    let mut st = State::empty();
    st.record_link(entry("p", "f", "/home/u/repo/f"));
    st.record_link(entry("p", "g", "/home/u/other/g"));
    let mut ign = entry("p", "debug.log", "/home/u/repo/debug.log");
    ign.ignored = true;
    st.record_link(ign);
    let under = st.entries_under("/home/u/repo");
    assert_eq!(under.len(), 2);
    assert_eq!(under[0].file, "f");
    assert_eq!(under[1].file, "debug.log");
    assert!(st.is_linked_under("p", "f", "/home/u/repo"));
    assert!(!st.is_linked_under("p", "g", "/home/u/repo"));
    assert!(st.is_ignored("p", "debug.log"));
    assert!(!st.is_ignored("p", "f"));
    assert_eq!(st.find_entry("p", "g"), Some(1));
    assert_eq!(st.find_entry("q", "g"), None);
}

#[test]
fn copies_are_equal() {
    let e = entry("p", "f", "/t");
    let c = e.copy();
    assert_eq!((c.project, c.file, c.target), (e.project.clone(), e.file.clone(), e.target.clone()));
    let p = ProjectEntry { name: s("n"), match_remote: None, match_path: Some(s("~/x/*")), files: strings(&["a"]), ignored: Vec::new() };
    let q = p.copy();
    assert_eq!(q.match_path, p.match_path);
    assert_eq!(q.files, p.files);
}

#[test]
fn default_state_is_empty() {
    assert!(State::default().linked.is_empty());
    assert!(State::empty().linked.is_empty());
}
