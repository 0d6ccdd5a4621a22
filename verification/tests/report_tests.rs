use privconf::model::{Config, LinkedEntry, ProjectEntry, State};
use privconf::report::{dry_run_lines, list_lines, status_lines};

fn project(name: &str, files: &[&str], ignored: &[&str]) -> ProjectEntry {
    ProjectEntry {
        name: name.to_string(),
        match_remote: None,
        match_path: None,
        files: files.iter().map(|f| f.to_string()).collect(),
        ignored: ignored.iter().map(|f| f.to_string()).collect(),
    }
}

#[test]
fn list_without_projects() {
    assert_eq!(list_lines(&Config::empty()), vec!["no projects".to_string()]);
}

#[test]
fn list_shows_counts() {
    let c = Config { project: vec![
        project("proj1", &["mise.local.toml", ".env.local"], &[]),
        project("proj2", &[], &["debug.log"]),
        project("both", &["a"], &["b"]),
        project("empty", &[], &[]),
    ] };
    assert_eq!(list_lines(&c), vec![
        "proj1 (2 file(s))".to_string(),
        "proj2 (1 ignored)".to_string(),
        "both (1 file(s), 1 ignored)".to_string(),
        "empty".to_string(),
    ]);
}

#[test]
fn status_with_and_without_project() {
    let p = project("myproj", &["mise.local.toml", "gone"], &["debug.log"]);
    let mut st = State::empty();
    st.record_link(LinkedEntry {
        project: "myproj".into(), file: "mise.local.toml".into(), target: "/r/mise.local.toml".into(),
        skip_worktree: false, ignored: false,
    });
    st.record_link(LinkedEntry {
        project: "myproj".into(), file: "debug.log".into(), target: "/r/debug.log".into(),
        skip_worktree: true, ignored: true,
    });
    let lines = status_lines(Some(&p), &st, "/r", &vec![true, false]);
    assert_eq!(lines, vec![
        "project: myproj".to_string(),
        "  mise.local.toml → linked".to_string(),
        "  gone ✗ not linked".to_string(),
        "  debug.log ✗ ignored".to_string(),
        "".to_string(),
        "linked files in this directory:".to_string(),
        "  mise.local.toml (project: myproj, skip-worktree: false, linked)".to_string(),
        "  debug.log (project: myproj, skip-worktree: true, ignored)".to_string(),
    ]);
    let none = status_lines(None, &State::empty(), "/r", &Vec::new());
    assert_eq!(none, vec!["no project matches current directory".to_string()]);
}

#[test]
fn sync_dry_run_report() {
    assert_eq!(dry_run_lines(false, "", "sync"), vec!["no local changes to commit".to_string()]);
    assert_eq!(dry_run_lines(true, "projects/p/a\nprojects/p/b\n", "msg"), vec![
        "would run: git pull".to_string(),
        "would stage and commit the following files:".to_string(),
        "  projects/p/a".to_string(),
        "  projects/p/b".to_string(),
        "commit message: msg".to_string(),
        "would run: git push".to_string(),
    ]);
}
