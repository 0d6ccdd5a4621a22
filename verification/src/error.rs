//! The errors that the decisions of the library can give, with their
//! messages.
use vstd::prelude::*;
use vstd::string::*;

verus! {

/// An error of the tool's own rules (file-system and git failures are the
/// program's).
pub enum PrivconfError {
    /// The store has no config file yet.
    NotInitialized,
    /// `init` found a config file already in the store.
    AlreadyInitialized { store: String },
    /// No project name was given and the directory is not in a git repository.
    NotInGitRepo,
    /// No project name was given and the repository has no `origin` remote.
    NoGitRemote,
    /// No project of the config carries this name.
    ProjectNotFound { name: String },
    /// No project of the config matches the current directory.
    NoMatchingProject,
    /// The store has no directory for the matched project.
    ProjectDirMissing { dir: String },
    /// `hook` was asked for a shell it has no script for.
    UnsupportedShell { shell: String },
    /// `unlink` found nothing linked under the current directory.
    NoLinkedFiles,
    /// `git pull` in the store stopped on a merge conflict.
    MergeConflict { store: String },
    /// `git pull` in the store failed otherwise.
    PullFailed { stderr: String },
}

/// The message of an error.
pub open spec fn message_of(e: PrivconfError) -> Seq<char> {
    match e {
        PrivconfError::NotInitialized => "privconf not initialized. Run `privconf init` first."@,
        PrivconfError::AlreadyInitialized { store } => "privconf already initialized at "@ + store@,
        PrivconfError::NotInGitRepo => "not in a git repo. Use -p <name> to specify project name"@,
        PrivconfError::NoGitRemote => "no git remote found. Use -p <name> to specify project name"@,
        PrivconfError::ProjectNotFound { name } => "project '"@ + name@ + "' not found"@,
        PrivconfError::NoMatchingProject => "no privconf project matches current directory"@,
        PrivconfError::ProjectDirMissing { dir } => "project directory "@ + dir@ + " not found"@,
        PrivconfError::UnsupportedShell { shell } => "unsupported shell: "@ + shell@
            + ". Supported: bash, zsh, fish"@,
        PrivconfError::NoLinkedFiles => "no linked files found in current directory"@,
        PrivconfError::MergeConflict { store } => "merge conflict detected. Resolve conflicts in "@
            + store@ + " and retry."@,
        PrivconfError::PullFailed { stderr } => "git pull failed: "@ + stderr@,
    }
}

fn wrap(before: &str, middle: &String, after: &str) -> (r: String)
    ensures
        r@ == before@ + middle@ + after@,
{
    let mut s = String::from_str(before);
    s.append(middle.as_str());
    s.append(after);
    s
}

impl PrivconfError {
    /// The message that the program prints for this error.
    pub fn message(&self) -> (r: String)
        ensures
            r@ == message_of(*self),
    {
        match self {
            PrivconfError::NotInitialized => String::from_str(
                "privconf not initialized. Run `privconf init` first.",
            ),
            PrivconfError::AlreadyInitialized { store } => {
                let r = wrap("privconf already initialized at ", store, "");
                proof {
                    reveal_strlit("");
                }
                assert(r@ =~= "privconf already initialized at "@ + store@);
                r
            },
            PrivconfError::NotInGitRepo => String::from_str(
                "not in a git repo. Use -p <name> to specify project name",
            ),
            PrivconfError::NoGitRemote => String::from_str(
                "no git remote found. Use -p <name> to specify project name",
            ),
            PrivconfError::ProjectNotFound { name } => wrap("project '", name, "' not found"),
            PrivconfError::NoMatchingProject => String::from_str(
                "no privconf project matches current directory",
            ),
            PrivconfError::ProjectDirMissing { dir } => wrap("project directory ", dir, " not found"),
            PrivconfError::UnsupportedShell { shell } => wrap(
                "unsupported shell: ",
                shell,
                ". Supported: bash, zsh, fish",
            ),
            PrivconfError::NoLinkedFiles => String::from_str(
                "no linked files found in current directory",
            ),
            PrivconfError::MergeConflict { store } => wrap(
                "merge conflict detected. Resolve conflicts in ",
                store,
                " and retry.",
            ),
            PrivconfError::PullFailed { stderr } => {
                let r = wrap("git pull failed: ", stderr, "");
                proof {
                    reveal_strlit("");
                }
                assert(r@ =~= "git pull failed: "@ + stderr@);
                r
            },
        }
    }
}

} // verus!
