use privconf::error::PrivconfError;
use privconf::store::{config_path, ensure_initialized, ensure_not_initialized, project_dir, state_path, store_dir};

#[test]
fn store_location() {
    assert_eq!(store_dir(Some("/custom"), Some("/home/u")).as_deref(), Some("/custom"));
    assert_eq!(store_dir(None, Some("/home/u")).as_deref(), Some("/home/u/.privconf"));
    assert_eq!(store_dir(None, None), None);
}

#[test]
fn store_files() {
    assert_eq!(config_path("/s"), "/s/config.toml");
    assert_eq!(state_path("/s/"), "/s/state.toml");
    assert_eq!(project_dir("/s", "myproj"), "/s/projects/myproj");
}

#[test]
fn initialization_checks() {
    assert!(ensure_initialized(true).is_ok());
    match ensure_initialized(false) {
        Err(e) => assert_eq!(e.message(), "privconf not initialized. Run `privconf init` first."),
        Ok(()) => panic!("expected an error"),
    }
    assert!(ensure_not_initialized(false, "/s").is_ok());
    match ensure_not_initialized(true, "/s") {
        Err(PrivconfError::AlreadyInitialized { store }) => assert_eq!(store, "/s"),
        _ => panic!("expected AlreadyInitialized"),
    }
}

#[test]
fn error_messages() {
    let cases = [
        (PrivconfError::NotInGitRepo, "not in a git repo. Use -p <name> to specify project name"),
        (PrivconfError::NoGitRemote, "no git remote found. Use -p <name> to specify project name"),
        (PrivconfError::ProjectNotFound { name: "p".into() }, "project 'p' not found"),
        (PrivconfError::NoMatchingProject, "no privconf project matches current directory"),
        (PrivconfError::ProjectDirMissing { dir: "/s/projects/p".into() }, "project directory /s/projects/p not found"),
        (PrivconfError::NoLinkedFiles, "no linked files found in current directory"),
        (PrivconfError::MergeConflict { store: "/s".into() }, "merge conflict detected. Resolve conflicts in /s and retry."),
        (PrivconfError::PullFailed { stderr: "x".into() }, "git pull failed: x"),
        (PrivconfError::AlreadyInitialized { store: "/s".into() }, "privconf already initialized at /s"),
    ];
    for (e, m) in cases {
        assert_eq!(e.message(), m);
    }
}
