//! The decisions of the commands, from the facts the program gathers about
//! the file system and git to what it is to do next.
use vstd::prelude::*;
use vstd::string::*;
use crate::text::{
    trim, trim_str, strip_suffixes, trim_end_matches, after_last, str_after_last, str_eq, contains,
    str_contains,
};
use crate::model::{
    LinkedEntry, LinkedView, clone_strings, other_key, same_key, law_forget_after_record,
};
use crate::error::PrivconfError;

verus! {

/// The text that a git command printed, trimmed, when it succeeded.
pub fn git_output_value(success: bool, stdout: &str) -> (r: Option<String>)
    ensures
        match r {
            Some(v) => success && v@ == trim(stdout@),
            None => !success,
        },
{
    if success {
        Some(String::from_str(trim_str(stdout)))
    } else {
        None
    }
}

/// The project name that a remote URL gives: its last `/`-separated part,
/// after every trailing `.git` is removed.
pub open spec fn name_from_remote(remote: Seq<char>) -> Seq<char> {
    after_last(strip_suffixes(remote, ".git"@), '/')
}

/// The project name that the `origin` URL of a repository gives, when the
/// repository has one.
pub fn derive_project_name(remote: Option<&str>) -> (r: Option<String>)
    ensures
        match remote {
            Some(u) => r matches Some(n) && n@ == name_from_remote(u@),
            None => r is None,
        },
{
    match remote {
        None => None,
        Some(url) => {
            proof {
                reveal_strlit(".git");
            }
            let stripped = trim_end_matches(url, ".git");
            Some(String::from_str(str_after_last(stripped, '/')))
        },
    }
}

/// The project a command works on: the name given, else the name the
/// repository's remote gives; `NotInGitRepo` when no name is given outside
/// a repository, `NoGitRemote` when the repository has no remote.
pub fn resolve_project_name(given: Option<String>, in_git_repo: bool, derived: Option<String>) -> (r: Result<String, PrivconfError>)
    ensures
        match given {
            Some(n) => r matches Ok(m) && m@ == n@,
            None => if !in_git_repo {
                r matches Err(PrivconfError::NotInGitRepo)
            } else {
                match derived {
                    Some(d) => r matches Ok(m) && m@ == d@,
                    None => r matches Err(PrivconfError::NoGitRemote),
                }
            },
        },
{
    match given {
        Some(n) => Ok(n),
        None => {
            if !in_git_repo {
                Err(PrivconfError::NotInGitRepo)
            } else {
                match derived {
                    Some(d) => Ok(d),
                    None => Err(PrivconfError::NoGitRemote),
                }
            }
        },
    }
}

/// The files to add, as given: a directory is added as one entry, like a
/// file.
pub fn expand_paths(cwd: &str, files: &Vec<String>) -> (r: Result<Vec<String>, PrivconfError>)
    ensures
        r matches Ok(v) && v.deep_view() == files.deep_view(),
{
    Ok(clone_strings(files))
}

/// The hook for bash.
pub const BASH_HOOK: &'static str = r#"
__privconf_chpwd_hook() {
    if [ "$__PRIVCONF_LAST_DIR" = "$PWD" ]; then
        return
    fi
    export __PRIVCONF_LAST_DIR="$PWD"
    privconf link --quiet 2>/dev/null || true
}
if ! [[ "${PROMPT_COMMAND:-}" == *__privconf_chpwd_hook* ]]; then
    PROMPT_COMMAND="__privconf_chpwd_hook${PROMPT_COMMAND:+;$PROMPT_COMMAND}"
fi
"#;

/// The hook for zsh.
pub const ZSH_HOOK: &'static str = r#"
__privconf_chpwd_hook() {
    if [ "$__PRIVCONF_LAST_DIR" = "$PWD" ]; then
        return
    fi
    export __PRIVCONF_LAST_DIR="$PWD"
    privconf link --quiet 2>/dev/null || true
}
chpwd_functions=(__privconf_chpwd_hook "${chpwd_functions[@]}")
"#;

/// The hook for fish.
pub const FISH_HOOK: &'static str = r#"
function __privconf_chpwd_hook --on-variable PWD
    privconf link --quiet 2>/dev/null; or true
end
"#;

/// The shell hook for `shell` (`bash`, `zsh` or `fish`), or
/// `UnsupportedShell`.
pub fn hook_script(shell: &str) -> (r: Result<&'static str, PrivconfError>)
    ensures
        shell@ == "bash"@ ==> r == Ok::<&'static str, PrivconfError>(BASH_HOOK),
        shell@ == "zsh"@ ==> r == Ok::<&'static str, PrivconfError>(ZSH_HOOK),
        shell@ == "fish"@ ==> r == Ok::<&'static str, PrivconfError>(FISH_HOOK),
        shell@ != "bash"@ && shell@ != "zsh"@ && shell@ != "fish"@ ==> (r matches Err(
            PrivconfError::UnsupportedShell { shell: s },
        ) && s@ == shell@),
{
    proof {
        reveal_strlit("bash");
        reveal_strlit("zsh");
        reveal_strlit("fish");
        assert("bash"@.len() != "zsh"@.len());
        assert("zsh"@.len() != "fish"@.len());
        assert("bash"@[0] != "fish"@[0]);
    }
    if str_eq(shell, "bash") {
        Ok(BASH_HOOK)
    } else if str_eq(shell, "zsh") {
        Ok(ZSH_HOOK)
    } else if str_eq(shell, "fish") {
        Ok(FISH_HOOK)
    } else {
        Err(PrivconfError::UnsupportedShell { shell: String::from_str(shell) })
    }
}

/// What is at the link target before linking.
pub enum TargetState {
    /// Nothing (or a dangling symlink).
    Absent,
    /// A symlink to the file in the store.
    LinkedToSource,
    /// A directory that is not a symlink.
    RealDir,
    /// A regular file, or a symlink elsewhere.
    FileOrSymlink,
    /// Something else (a socket, a fifo, a device).
    Other,
}

/// What to do with what is at the target before linking.
pub enum Displace {
    /// Leave it.
    Keep,
    /// Rename it to its backup path.
    RenameToBackup,
    /// Remove it with everything under it.
    RemoveDir,
    /// Remove it.
    RemoveFile,
}

/// How git is kept from seeing a file.
pub enum Hide {
    /// A line in `.git/info/exclude`.
    Exclude,
    /// `git update-index --skip-worktree`.
    SkipWorktree,
}

/// The first step of linking a file.
pub enum LinkStep {
    /// The store has no such file: skip it.
    SourceMissing,
    /// The target already links to the store: nothing to do.
    AlreadyLinked,
    /// Deal with the target as `displace` says, exclude the backup from git
    /// when `exclude_backup`, then create the link.
    Proceed { displace: Displace, exclude_backup: bool },
}

/// What linking does with what is at the target: nothing is there, or a
/// link to the store (already a correct symlink), and it stays; with a
/// backup (`link`) a directory, file or symlink is renamed to its backup;
/// without one (`add`, whose content the store already has) it is removed.
pub open spec fn displacement(target: TargetState, backup: bool) -> Displace {
    match target {
        TargetState::Absent | TargetState::LinkedToSource => Displace::Keep,
        TargetState::RealDir => if backup {
            Displace::RenameToBackup
        } else {
            Displace::RemoveDir
        },
        TargetState::FileOrSymlink => if backup {
            Displace::RenameToBackup
        } else {
            Displace::RemoveFile
        },
        TargetState::Other => if backup {
            Displace::Keep
        } else {
            Displace::RemoveFile
        },
    }
}

/// How linking treats the target: skipped when the store lacks the file,
/// skipped when it already links to the store; otherwise what is there is
/// displaced as `displacement` says, and inside a repository the backup is
/// excluded from git whenever something was there and backups are kept.
pub open spec fn link_step(source_exists: bool, target: TargetState, backup: bool, in_git_repo: bool) -> LinkStep {
    if !source_exists {
        LinkStep::SourceMissing
    } else if target is LinkedToSource {
        LinkStep::AlreadyLinked
    } else {
        LinkStep::Proceed {
            displace: displacement(target, backup),
            exclude_backup: backup && in_git_repo && !(target is Absent),
        }
    }
}

/// The first step of linking a file.
pub fn plan_link(source_exists: bool, target: TargetState, backup: bool, in_git_repo: bool) -> (r: LinkStep)
    ensures
        r == link_step(source_exists, target, backup, in_git_repo),
{
    if !source_exists {
        return LinkStep::SourceMissing;
    }
    match target {
        TargetState::Absent => LinkStep::Proceed { displace: Displace::Keep, exclude_backup: false },
        TargetState::LinkedToSource => LinkStep::AlreadyLinked,
        TargetState::RealDir => LinkStep::Proceed {
            displace: if backup {
                Displace::RenameToBackup
            } else {
                Displace::RemoveDir
            },
            exclude_backup: backup && in_git_repo,
        },
        TargetState::FileOrSymlink => LinkStep::Proceed {
            displace: if backup {
                Displace::RenameToBackup
            } else {
                Displace::RemoveFile
            },
            exclude_backup: backup && in_git_repo,
        },
        TargetState::Other => LinkStep::Proceed {
            displace: if backup {
                Displace::Keep
            } else {
                Displace::RemoveFile
            },
            exclude_backup: backup && in_git_repo,
        },
    }
}

/// How a linked or ignored file is hidden from git.
pub struct HidePlan {
    /// The hiding to apply, if any (none outside a repository).
    pub hide: Option<Hide>,
    /// Whether the record notes skip-worktree.
    pub skip_worktree: bool,
    /// Whether a failure to hide fails the command (it does not for a
    /// directory).
    pub fatal: bool,
}

/// How a file is hidden from git: outside a repository not at all; a file
/// that git tracks by skip-worktree; an untracked file, and any directory,
/// by an exclude line.
pub open spec fn hiding(in_git_repo: bool, is_dir: bool, in_index: bool) -> Option<Hide> {
    if !in_git_repo {
        None
    } else if !is_dir && in_index {
        Some(Hide::SkipWorktree)
    } else {
        Some(Hide::Exclude)
    }
}

/// The hiding of a file, with the record noting skip-worktree exactly when
/// that is the hiding, and a failure fatal except for a directory.
pub open spec fn hide_plan(in_git_repo: bool, is_dir: bool, in_index: bool) -> HidePlan {
    HidePlan {
        hide: hiding(in_git_repo, is_dir, in_index),
        skip_worktree: hiding(in_git_repo, is_dir, in_index) == Some(Hide::SkipWorktree),
        fatal: !is_dir,
    }
}

/// How a file is hidden from git.
pub fn plan_hide(in_git_repo: bool, is_dir: bool, in_index: bool) -> (r: HidePlan)
    ensures
        r == hide_plan(in_git_repo, is_dir, in_index),
        in_git_repo && is_dir ==> r.hide == Some(Hide::Exclude) && !r.skip_worktree && !r.fatal,
        in_git_repo && !is_dir ==> r.hide == (if in_index {
            Some(Hide::SkipWorktree)
        } else {
            Some(Hide::Exclude)
        }) && r.skip_worktree == in_index && r.fatal,
        !in_git_repo ==> r.hide is None && !r.skip_worktree,
{
    if is_dir {
        HidePlan {
            hide: if in_git_repo {
                Some(Hide::Exclude)
            } else {
                None
            },
            skip_worktree: false,
            fatal: false,
        }
    } else {
        let t = in_git_repo && in_index;
        HidePlan {
            hide: if !in_git_repo {
                None
            } else if t {
                Some(Hide::SkipWorktree)
            } else {
                Some(Hide::Exclude)
            },
            skip_worktree: t,
            fatal: true,
        }
    }
}

/// How the original is brought back when a link is removed.
pub enum Restore {
    /// Rename the backup back to the target.
    FromBackup,
    /// Clear skip-worktree and check the file out of `HEAD`.
    FromGit,
    /// Nothing to bring back.
    Nothing,
}

/// What undoing a record does.
pub enum UnlinkStep {
    /// The target is not a symlink: skip it.
    NotSymlink,
    /// Remove the symlink, restore as `restore` says, then stop hiding the
    /// file from git (and the backup's exclude line) inside a repository.
    Unlink { restore: Restore, unset_skip_worktree: bool, remove_exclude: bool, remove_backup_exclude: bool },
    /// An ignored file: stop hiding it from git inside a repository.
    Unhide { unset_skip_worktree: bool, remove_exclude: bool },
}

/// How the original comes back when a link is removed: from the backup
/// when there is one; else, for a file git tracks (noted skip-worktree),
/// from git; else not at all.
pub open spec fn restoring(backup_exists: bool, in_git: bool) -> Restore {
    if backup_exists {
        Restore::FromBackup
    } else if in_git {
        Restore::FromGit
    } else {
        Restore::Nothing
    }
}

/// How a record is undone: an ignored file is only shown to git again; a
/// linked file whose target is no symlink is skipped; otherwise the link
/// goes and the original comes back as `restoring` says. Inside a
/// repository the hiding the record notes is undone (skip-worktree cleared,
/// or the exclude line removed), and for a link the backup's exclude line
/// too.
pub open spec fn unlink_step(skip_worktree: bool, ignored: bool, target_is_symlink: bool, backup_exists: bool, in_git_repo: bool) -> UnlinkStep {
    let unset = in_git_repo && skip_worktree;
    let unexclude = in_git_repo && !skip_worktree;
    if ignored {
        UnlinkStep::Unhide { unset_skip_worktree: unset, remove_exclude: unexclude }
    } else if !target_is_symlink {
        UnlinkStep::NotSymlink
    } else {
        UnlinkStep::Unlink {
            restore: restoring(backup_exists, unset),
            unset_skip_worktree: unset,
            remove_exclude: unexclude,
            remove_backup_exclude: in_git_repo,
        }
    }
}

/// How the record `entry` is undone.
pub fn plan_unlink(entry: &LinkedEntry, target_is_symlink: bool, backup_exists: bool, in_git_repo: bool) -> (r: UnlinkStep)
    ensures
        r == unlink_step(entry.skip_worktree, entry.ignored, target_is_symlink, backup_exists, in_git_repo),
{
    let sw = entry.skip_worktree;
    if entry.ignored {
        UnlinkStep::Unhide { unset_skip_worktree: in_git_repo && sw, remove_exclude: in_git_repo && !sw }
    } else if !target_is_symlink {
        UnlinkStep::NotSymlink
    } else {
        let restore = if backup_exists {
            Restore::FromBackup
        } else if in_git_repo && sw {
            Restore::FromGit
        } else {
            Restore::Nothing
        };
        UnlinkStep::Unlink {
            restore,
            unset_skip_worktree: in_git_repo && sw,
            remove_exclude: in_git_repo && !sw,
            remove_backup_exclude: in_git_repo,
        }
    }
}

/// Whether `c` is ASCII whitespace (`u8::is_ascii_whitespace`).
pub open spec fn is_ascii_ws(c: char) -> bool {
    c == ' ' || c == '\t' || c == '\n' || c == '\u{c}' || c == '\r'
}

/// Whether `git remote` printed a remote name: anything but ASCII
/// whitespace.
pub fn has_remote(stdout: &str) -> (r: bool)
    ensures
        r == exists|i: int| 0 <= i < stdout@.len() && !is_ascii_ws(#[trigger] stdout@[i]),
{
    let n = stdout.unicode_len();
    let mut i: usize = 0;
    while i < n
        invariant
            n == stdout@.len(),
            i <= n,
            forall|j: int| 0 <= j < i ==> is_ascii_ws(#[trigger] stdout@[j]),
        decreases n - i,
    {
        let c = stdout.get_char(i);
        if !(c == ' ' || c == '\t' || c == '\n' || c == '\u{c}' || c == '\r') {
            return true;
        }
        i = i + 1;
    }
    false
}

/// The commit message of `sync`: the one given, else `sync`.
pub fn commit_message(given: Option<&str>) -> (r: &str)
    ensures
        match given {
            Some(m) => r@ == m@,
            None => r@ == "sync"@,
        },
{
    match given {
        Some(m) => m,
        None => "sync",
    }
}

/// The error of a failed `git pull` in the store: a merge conflict when
/// git's output says so, else the output itself, trimmed.
pub fn pull_failure(stderr: &str, store: &str) -> (r: PrivconfError)
    ensures
        (contains(stderr@, "CONFLICT"@) || contains(stderr@, "Merge conflict"@)) ==> (r matches PrivconfError::MergeConflict {
            store: s,
        } && s@ == store@),
        !(contains(stderr@, "CONFLICT"@) || contains(stderr@, "Merge conflict"@)) ==> (r matches PrivconfError::PullFailed {
            stderr: e,
        } && e@ == trim(stderr@)),
{
    if str_contains(stderr, "CONFLICT") || str_contains(stderr, "Merge conflict") {
        PrivconfError::MergeConflict { store: String::from_str(store) }
    } else {
        PrivconfError::PullFailed { stderr: String::from_str(trim_str(stderr)) }
    }
}

/// A derived project name holds no `/`.
pub proof fn law_project_name_has_no_slash(remote: Seq<char>)
    ensures
        !name_from_remote(remote).contains('/'),
{
    lemma_after_last_no_sep(strip_suffixes(remote, ".git"@), '/');
}

proof fn lemma_after_last_no_sep(s: Seq<char>, c: char)
    ensures
        !after_last(s, c).contains(c),
    decreases s.len(),
{
    if s.len() > 0 && s.last() != c {
        lemma_after_last_no_sep(s.drop_last(), c);
        let r = after_last(s.drop_last(), c);
        assert forall|i: int| 0 <= i < r.push(s.last()).len() implies r.push(s.last())[i] != c by {
            if i < r.len() {
                assert(r.push(s.last())[i] == r[i]);
            }
        }
    }
}

/// Undoing a link undoes the hiding that linking applied: inside a
/// repository, skip-worktree is cleared exactly when linking set it, and
/// the exclude line is removed exactly when linking added one.
pub proof fn law_unlink_undoes_hide(is_dir: bool, in_index: bool, backup_exists: bool)
    ensures
        ({
            let h = hide_plan(true, is_dir, in_index);
            let u = unlink_step(h.skip_worktree, false, true, backup_exists, true);
            &&& u matches UnlinkStep::Unlink {
                unset_skip_worktree,
                remove_exclude,
                remove_backup_exclude,
                ..
            }
            &&& unset_skip_worktree == (h.hide == Some(Hide::SkipWorktree))
            &&& remove_exclude == (h.hide == Some(Hide::Exclude))
            &&& remove_backup_exclude
        }),
{
}

/// Undoing an ignore undoes its hiding: inside a repository, skip-worktree
/// is cleared exactly when ignoring set it, and the exclude line is removed
/// exactly when ignoring added one.
pub proof fn law_unignore_undoes_hide(in_index: bool, target_is_symlink: bool, backup_exists: bool)
    ensures
        ({
            let h = hide_plan(true, false, in_index);
            let u = unlink_step(h.skip_worktree, true, target_is_symlink, backup_exists, true);
            &&& u matches UnlinkStep::Unhide { unset_skip_worktree, remove_exclude }
            &&& unset_skip_worktree == (h.hide == Some(Hide::SkipWorktree))
            &&& remove_exclude == (h.hide == Some(Hide::Exclude))
        }),
{
}


/// Linking a file or directory with a backup and then unlinking it brings
/// back what was there: linking renames it to its backup (and excludes the
/// backup from git inside a repository); unlinking, with the link and the
/// backup in place, renames the backup back, undoes the hiding that linking
/// applied and the backup's exclude line; and forgetting the record leaves
/// the records as they were before linking, with none of that file.
pub proof fn law_unlink_after_link_restores(
    target: TargetState,
    in_git_repo: bool,
    in_index: bool,
    s: Seq<LinkedView>,
    e: LinkedView,
)
    requires
        target is RealDir || target is FileOrSymlink,
        !e.ignored,
        e.skip_worktree == hide_plan(in_git_repo, target is RealDir, in_index).skip_worktree,
    ensures
        link_step(true, target, true, in_git_repo) == (LinkStep::Proceed {
            displace: Displace::RenameToBackup,
            exclude_backup: in_git_repo,
        }),
        ({
            let h = hide_plan(in_git_repo, target is RealDir, in_index);
            let u = unlink_step(e.skip_worktree, e.ignored, true, true, in_git_repo);
            &&& u matches UnlinkStep::Unlink {
                restore,
                unset_skip_worktree,
                remove_exclude,
                remove_backup_exclude,
            }
            &&& restore == Restore::FromBackup
            &&& unset_skip_worktree == (h.hide == Some(Hide::SkipWorktree))
            &&& remove_exclude == (h.hide == Some(Hide::Exclude))
            &&& remove_backup_exclude == in_git_repo
        }),
        ({
            let after = s.filter(other_key(e.project, e.file)).push(e).filter(
                other_key(e.project, e.file),
            );
            &&& after == s.filter(other_key(e.project, e.file))
            &&& forall|i: int|
                0 <= i < after.len() ==> !same_key(e.project, e.file)(#[trigger] after[i])
        }),
{
    broadcast use vstd::seq_lib::group_filter_ensures;

    law_forget_after_record(s, e);
    let k = other_key(e.project, e.file);
    let after = s.filter(k);
    assert forall|i: int| 0 <= i < after.len() implies !same_key(e.project, e.file)(
        #[trigger] after[i],
    ) by {
        s.lemma_filter_pred(k, i);
    }
}


/// How hiding goes: outside a repository nothing is hidden; inside one a
/// directory always gets an exclude line and is never noted skip-worktree,
/// a file that git tracks gets skip-worktree and one it does not an exclude
/// line; the record notes skip-worktree exactly when that is the hiding;
/// only a file's hiding can fail the command.
pub proof fn law_hiding(in_git_repo: bool, is_dir: bool, in_index: bool)
    ensures
        ({
            let h = hide_plan(in_git_repo, is_dir, in_index);
            &&& !in_git_repo ==> h.hide is None && !h.skip_worktree
            &&& in_git_repo && is_dir ==> h.hide == Some(Hide::Exclude) && !h.skip_worktree
            &&& in_git_repo && !is_dir && in_index ==> h.hide == Some(Hide::SkipWorktree)
                && h.skip_worktree
            &&& in_git_repo && !is_dir && !in_index ==> h.hide == Some(Hide::Exclude)
                && !h.skip_worktree
            &&& h.fatal == !is_dir
        }),
{
}

} // verus!
