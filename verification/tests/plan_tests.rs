use privconf::error::PrivconfError;
use privconf::model::LinkedEntry;
use privconf::plan::{
    commit_message, derive_project_name, expand_paths, git_output_value, has_remote, hook_script, plan_hide,
    plan_link, plan_unlink, pull_failure, resolve_project_name, Displace, Hide, LinkStep, Restore, TargetState,
    UnlinkStep, BASH_HOOK,
};

#[test]
fn project_name_from_remote() {
    assert_eq!(derive_project_name(Some("git@github.com:myco/myproj.git")).as_deref(), Some("myproj"));
    assert_eq!(derive_project_name(Some("https://github.com/a/b")).as_deref(), Some("b"));
    assert_eq!(derive_project_name(Some("x.git.git")).as_deref(), Some("x"));
    assert_eq!(derive_project_name(None), None);
}

#[test]
fn project_name_resolution() {
    assert_eq!(resolve_project_name(Some("custom".into()), false, None).ok().as_deref(), Some("custom"));
    assert_eq!(resolve_project_name(None, true, Some("myproj".into())).ok().as_deref(), Some("myproj"));
    assert!(matches!(resolve_project_name(None, false, None), Err(PrivconfError::NotInGitRepo)));
    assert!(matches!(resolve_project_name(None, true, None), Err(PrivconfError::NoGitRemote)));
}

#[test]
fn git_output_is_trimmed() {
    assert_eq!(git_output_value(true, "git@h:a/b.git\n").as_deref(), Some("git@h:a/b.git"));
    assert_eq!(git_output_value(false, "whatever"), None);
}

#[test]
fn expand_paths_keeps_files() {
    let files = vec!["scripts".to_string(), "a.toml".to_string()];
    assert_eq!(expand_paths("/repo", &files).ok(), Some(files.clone()));
}

#[test]
fn hooks_for_each_shell() {
    let zsh = hook_script("zsh").ok().unwrap();
    assert!(zsh.contains("chpwd_functions"));
    assert!(zsh.contains("privconf link --quiet"));
    let bash = hook_script("bash").ok().unwrap();
    assert_eq!(bash, BASH_HOOK);
    assert!(bash.contains("PROMPT_COMMAND"));
    assert!(bash.contains("privconf link --quiet"));
    let fish = hook_script("fish").ok().unwrap();
    assert!(fish.contains("__privconf_chpwd_hook"));
    assert!(fish.contains("on-variable PWD"));
    assert!(fish.contains("privconf link --quiet"));
    match hook_script("powershell") {
        Err(e) => assert_eq!(e.message(), "unsupported shell: powershell. Supported: bash, zsh, fish"),
        Ok(_) => panic!("expected an error"),
    }
}

#[test]
fn link_steps() {
    assert!(matches!(plan_link(false, TargetState::Absent, true, true), LinkStep::SourceMissing));
    assert!(matches!(plan_link(true, TargetState::LinkedToSource, true, true), LinkStep::AlreadyLinked));
    assert!(matches!(
        plan_link(true, TargetState::Absent, true, true),
        LinkStep::Proceed { displace: Displace::Keep, exclude_backup: false }
    ));
    assert!(matches!(
        plan_link(true, TargetState::FileOrSymlink, true, true),
        LinkStep::Proceed { displace: Displace::RenameToBackup, exclude_backup: true }
    ));
    assert!(matches!(
        plan_link(true, TargetState::RealDir, true, false),
        LinkStep::Proceed { displace: Displace::RenameToBackup, exclude_backup: false }
    ));
    assert!(matches!(
        plan_link(true, TargetState::RealDir, false, true),
        LinkStep::Proceed { displace: Displace::RemoveDir, exclude_backup: false }
    ));
    assert!(matches!(
        plan_link(true, TargetState::FileOrSymlink, false, true),
        LinkStep::Proceed { displace: Displace::RemoveFile, exclude_backup: false }
    ));
    assert!(matches!(
        plan_link(true, TargetState::Other, true, true),
        LinkStep::Proceed { displace: Displace::Keep, exclude_backup: true }
    ));
}

#[test]
fn hiding() {
    let d = plan_hide(true, true, true);
    assert!(matches!(d.hide, Some(Hide::Exclude)) && !d.skip_worktree && !d.fatal);
    let t = plan_hide(true, false, true);
    assert!(matches!(t.hide, Some(Hide::SkipWorktree)) && t.skip_worktree && t.fatal);
    let u = plan_hide(true, false, false);
    assert!(matches!(u.hide, Some(Hide::Exclude)) && !u.skip_worktree);
    let n = plan_hide(false, false, true);
    assert!(n.hide.is_none() && !n.skip_worktree);
}

fn rec(skip_worktree: bool, ignored: bool) -> LinkedEntry {
    LinkedEntry { project: "p".into(), file: "f".into(), target: "/r/f".into(), skip_worktree, ignored }
}

#[test]
fn unlink_steps() {
    assert!(matches!(plan_unlink(&rec(false, false), false, false, true), UnlinkStep::NotSymlink));
    assert!(matches!(
        plan_unlink(&rec(false, false), true, true, true),
        UnlinkStep::Unlink { restore: Restore::FromBackup, unset_skip_worktree: false, remove_exclude: true, remove_backup_exclude: true }
    ));
    assert!(matches!(
        plan_unlink(&rec(true, false), true, false, true),
        UnlinkStep::Unlink { restore: Restore::FromGit, unset_skip_worktree: true, remove_exclude: false, remove_backup_exclude: true }
    ));
    assert!(matches!(
        plan_unlink(&rec(false, false), true, false, false),
        UnlinkStep::Unlink { restore: Restore::Nothing, unset_skip_worktree: false, remove_exclude: false, remove_backup_exclude: false }
    ));
    assert!(matches!(
        plan_unlink(&rec(false, true), false, false, true),
        UnlinkStep::Unhide { unset_skip_worktree: false, remove_exclude: true }
    ));
    assert!(matches!(
        plan_unlink(&rec(true, true), false, false, true),
        UnlinkStep::Unhide { unset_skip_worktree: true, remove_exclude: false }
    ));
}

#[test]
fn sync_decisions() {
    assert!(has_remote("origin\n"));
    assert!(!has_remote(" \n\t"));
    assert!(!has_remote(""));
    assert_eq!(commit_message(None), "sync");
    assert_eq!(commit_message(Some("custom commit msg")), "custom commit msg");
    match pull_failure("CONFLICT (content): x", "/s") {
        PrivconfError::MergeConflict { store } => assert_eq!(store, "/s"),
        _ => panic!("expected a merge conflict"),
    }
    match pull_failure("  fatal: no\n", "/s") {
        PrivconfError::PullFailed { stderr } => assert_eq!(stderr, "fatal: no"),
        _ => panic!("expected a pull failure"),
    }
}

#[test]
fn unlink_after_link_restores_from_backup() {
    for target in [TargetState::RealDir, TargetState::FileOrSymlink] {
        let is_dir = matches!(target, TargetState::RealDir);
        match plan_link(true, target, true, true) {
            LinkStep::Proceed { displace: Displace::RenameToBackup, exclude_backup: true } => {}
            _ => panic!("link must back up the target"),
        }
        let h = plan_hide(true, is_dir, true);
        let entry = rec(h.skip_worktree, false);
        match plan_unlink(&entry, true, true, true) {
            UnlinkStep::Unlink { restore: Restore::FromBackup, unset_skip_worktree, remove_exclude, remove_backup_exclude } => {
                assert_eq!(unset_skip_worktree, matches!(h.hide, Some(Hide::SkipWorktree)));
                assert_eq!(remove_exclude, matches!(h.hide, Some(Hide::Exclude)));
                assert!(remove_backup_exclude);
            }
            _ => panic!("unlink must restore from the backup"),
        }
    }
}
