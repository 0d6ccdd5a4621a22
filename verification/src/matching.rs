//! Which project a directory belongs to: a project whose `match_remote`
//! occurs in the repository's `origin` URL comes first; otherwise one whose
//! `match_path` glob (after `~` expansion) matches the directory.
use vstd::prelude::*;
use vstd::string::*;
use crate::text::{contains, str_contains};
use crate::paths::{expand_tilde, expand_tilde_str};
use crate::model::{Config, ProjectEntry, ProjectView, first_where, lemma_first_from, lemma_first_from_skip};

verus! {

#[verifier::external_type_specification]
#[verifier::external_body]
pub struct ExGlobPattern(glob::Pattern);

#[verifier::external_type_specification]
#[verifier::external_body]
pub struct ExGlobPatternError(glob::PatternError);

/// Whether `glob::Pattern::new` accepts `pattern`.
pub uninterp spec fn glob_compiles(pattern: Seq<char>) -> bool;

/// Whether the pattern that `glob::Pattern::new` builds from `pattern`
/// matches `path` (`glob::Pattern::matches_path`, default options).
pub uninterp spec fn glob_matches(pattern: Seq<char>, path: Seq<char>) -> bool;

/// A glob pattern together with the text it was built from.
pub struct CompiledGlob {
    source: String,
    pattern: glob::Pattern,
}

impl CompiledGlob {
    /// The text the pattern was built from.
    pub closed spec fn source(&self) -> Seq<char> {
        self.source@
    }
}

/// Builds a pattern with `glob::Pattern::new`. Trusted: the call succeeds
/// exactly when `glob_compiles` holds of the text, and the pattern keeps the
/// text it was built from. What the pattern syntax accepts is left to the
/// name.
#[verifier::external_body]
fn glob_pattern_new(source: &str) -> (r: Result<CompiledGlob, glob::PatternError>)
    ensures
        r is Ok <==> glob_compiles(source@),
        r matches Ok(g) ==> g.source() == source@,
{
    match glob::Pattern::new(source) {
        Ok(pattern) => Ok(CompiledGlob { source: source.to_string(), pattern }),
        Err(e) => Err(e),
    }
}

/// Tests a path against a pattern with `glob::Pattern::matches_path`.
/// Trusted: the answer is `glob_matches` of the pattern's text and the path,
/// a function of the two alone; what matching means is left to the name.
#[verifier::external_body]
fn glob_matches_path(g: &CompiledGlob, path: &str) -> (r: bool)
    ensures
        r == glob_matches(g.source(), path@),
{
    g.pattern.matches_path(std::path::Path::new(path))
}

/// The characters of an optional `&str`.
pub open spec fn opt_str(o: Option<&str>) -> Option<Seq<char>> {
    match o {
        Some(s) => Some(s@),
        None => None,
    }
}

/// Whether the project's `match_remote` occurs in the `origin` URL.
pub open spec fn remote_hit(p: ProjectView, remote: Option<Seq<char>>) -> bool {
    remote is Some && p.match_remote is Some && contains(remote->Some_0, p.match_remote->Some_0)
}

/// Whether the project's `match_path` glob, `~` expanded, compiles and
/// matches `dir`.
pub open spec fn path_hit(p: ProjectView, dir: Seq<char>, home: Option<Seq<char>>) -> bool {
    p.match_path is Some && glob_compiles(expand_tilde(p.match_path->Some_0, home)) && glob_matches(
        expand_tilde(p.match_path->Some_0, home),
        dir,
    )
}

/// Whether a project matches by remote.
pub open spec fn by_remote(remote: Option<Seq<char>>) -> spec_fn(ProjectView) -> bool {
    |p: ProjectView| remote_hit(p, remote)
}

/// The flags of `hits` for the first `n` indices, absent ones false.
pub open spec fn hit_flags(n: nat, hits: Seq<bool>) -> Seq<bool> {
    Seq::new(n, |i: int| i < hits.len() && hits[i])
}

/// Whether a flag is set.
pub open spec fn is_set() -> spec_fn(bool) -> bool {
    |b: bool| b
}

/// The project chosen among `ps`: the first that matches by remote, else
/// the first whose path flag is set.
pub open spec fn chosen(ps: Seq<ProjectView>, remote: Option<Seq<char>>, hits: Seq<bool>) -> Option<int> {
    match first_where(ps, by_remote(remote)) {
        Some(i) => Some(i),
        None => first_where(hit_flags(ps.len(), hits), is_set()),
    }
}

/// The project of the config that the directory `dir` belongs to.
pub open spec fn project_for_dir(
    ps: Seq<ProjectView>,
    dir: Seq<char>,
    remote: Option<Seq<char>>,
    home: Option<Seq<char>>,
) -> Option<int> {
    chosen(ps, remote, Seq::new(ps.len(), |i: int| path_hit(ps[i], dir, home)))
}

/// Whether the project's `match_path` glob, `~` expanded, matches `dir`.
fn path_matches(p: &ProjectEntry, dir: &str, home: Option<&str>) -> (r: bool)
    ensures
        r == path_hit(p@, dir@, opt_str(home)),
{
    match &p.match_path {
        None => false,
        Some(pattern) => {
            let expanded = expand_tilde_str(pattern.as_str(), home);
            match glob_pattern_new(expanded.as_str()) {
                Ok(g) => glob_matches_path(&g, dir),
                Err(_) => false,
            }
        },
    }
}

/// Whether the project's `match_remote` occurs in the `origin` URL.
fn remote_matches(p: &ProjectEntry, git_remote: Option<&str>) -> (r: bool)
    ensures
        r == remote_hit(p@, opt_str(git_remote)),
{
    match (git_remote, &p.match_remote) {
        (Some(remote), Some(r)) => str_contains(remote, r.as_str()),
        _ => false,
    }
}

impl ProjectEntry {
    /// Whether `dir` belongs to this project: its path glob matches `dir`,
    /// or its remote occurs in `git_remote` (the `origin` URL of `dir`'s
    /// repository, when it has one). `home` is the home directory that `~`
    /// stands for.
    pub fn matches_dir(&self, dir: &str, git_remote: Option<&str>, home: Option<&str>) -> (r: bool)
        ensures
            r == (path_hit(self@, dir@, opt_str(home)) || remote_hit(self@, opt_str(git_remote))),
    {
        if path_matches(self, dir, home) {
            return true;
        }
        remote_matches(self, git_remote)
    }
}

/// The index of the project chosen for a directory, given the `origin` URL
/// of its repository and, for each project, whether its path glob matched
/// the directory: the first project whose remote occurs in the URL, else
/// the first whose path matched.
pub fn select_project(config: &Config, git_remote: Option<&str>, path_hits: &Vec<bool>) -> (r: Option<usize>)
    ensures
        match r {
            Some(i) => chosen(config@, opt_str(git_remote), path_hits@) == Some(i as int),
            None => chosen(config@, opt_str(git_remote), path_hits@) is None,
        },
{
    let n = config.project.len();
    let ghost ps = config@;
    let mut i: usize = 0;
    while i < n
        invariant
            n == ps.len(),
            ps == config@,
            i <= n,
            forall|j: int| 0 <= j < i ==> !by_remote(opt_str(git_remote))(#[trigger] ps[j]),
        decreases n - i,
    {
        if remote_matches(&config.project[i], git_remote) {
            proof {
                lemma_first_from_skip(ps, by_remote(opt_str(git_remote)), i as int);
            }
            return Some(i);
        }
        i = i + 1;
    }
    proof {
        lemma_first_from_skip(ps, by_remote(opt_str(git_remote)), n as int);
    }
    let ghost flags = hit_flags(n as nat, path_hits@);
    let mut k: usize = 0;
    while k < n
        invariant
            n == ps.len(),
            ps == config@,
            first_where(ps, by_remote(opt_str(git_remote))) is None,
            flags == hit_flags(n as nat, path_hits@),
            k <= n,
            forall|j: int| 0 <= j < k ==> !is_set()(#[trigger] flags[j]),
        decreases n - k,
    {
        if k < path_hits.len() && path_hits[k] {
            assert(is_set()(flags[k as int]));
            proof {
                lemma_first_from_skip(flags, is_set(), k as int);
            }
            return Some(k);
        }
        k = k + 1;
    }
    proof {
        lemma_first_from_skip(flags, is_set(), n as int);
    }
    None
}

/// The project of `config` that the directory `dir` belongs to, given the
/// `origin` URL of its repository and the home directory.
pub fn find_project_for_dir<'a>(
    config: &'a Config,
    dir: &str,
    git_remote: Option<&str>,
    home: Option<&str>,
) -> (r: Option<&'a ProjectEntry>)
    ensures
        match project_for_dir(config@, dir@, opt_str(git_remote), opt_str(home)) {
            Some(i) => 0 <= i < config.project@.len() && r == Some(&config.project@[i]),
            None => r is None,
        },
{
    let n = config.project.len();
    let mut hits: Vec<bool> = Vec::new();
    let mut i: usize = 0;
    while i < n
        invariant
            n == config@.len(),
            i <= n,
            hits@.len() == i,
            forall|j: int| 0 <= j < i ==> hits@[j] == path_hit(config@[j], dir@, opt_str(home)),
        decreases n - i,
    {
        hits.push(path_matches(&config.project[i], dir, home));
        i = i + 1;
    }
    assert(hits@ =~= Seq::new(config@.len(), |j: int| path_hit(config@[j], dir@, opt_str(home))));
    let r = select_project(config, git_remote, &hits);
    proof {
        lemma_first_from(config@, by_remote(opt_str(git_remote)), 0);
        lemma_first_from(hit_flags(n as nat, hits@), is_set(), 0);
    }
    match r {
        Some(k) => Some(&config.project[k]),
        None => None,
    }
}

/// When some project matches by remote, the chosen project is the first
/// that does, whatever the path globs say.
pub proof fn law_remote_takes_priority(
    ps: Seq<ProjectView>,
    dir: Seq<char>,
    remote: Option<Seq<char>>,
    home: Option<Seq<char>>,
    i: int,
)
    requires
        0 <= i < ps.len(),
        remote_hit(ps[i], remote),
    ensures
        project_for_dir(ps, dir, remote, home) matches Some(j) && j <= i && remote_hit(ps[j], remote)
            && forall|k: int| 0 <= k < j ==> !remote_hit(#[trigger] ps[k], remote),
{
    lemma_first_from(ps, by_remote(remote), 0);
    assert(by_remote(remote)(ps[i]));
}

/// When no project matches by remote, the chosen project is the first
/// whose path glob matches the directory.
pub proof fn law_path_fallback(
    ps: Seq<ProjectView>,
    dir: Seq<char>,
    remote: Option<Seq<char>>,
    home: Option<Seq<char>>,
)
    requires
        forall|k: int| 0 <= k < ps.len() ==> !remote_hit(#[trigger] ps[k], remote),
    ensures
        match project_for_dir(ps, dir, remote, home) {
            Some(j) => 0 <= j < ps.len() && path_hit(ps[j], dir, home) && forall|k: int|
                0 <= k < j ==> !path_hit(#[trigger] ps[k], dir, home),
            None => forall|k: int| 0 <= k < ps.len() ==> !path_hit(#[trigger] ps[k], dir, home),
        },
{
    lemma_first_from(ps, by_remote(remote), 0);
    assert forall|k: int| 0 <= k < ps.len() implies !by_remote(remote)(#[trigger] ps[k]) by {
        assert(!remote_hit(ps[k], remote));
    }
    lemma_first_from_skip(ps, by_remote(remote), ps.len() as int);
    let hits = Seq::new(ps.len(), |i: int| path_hit(ps[i], dir, home));
    let flags = hit_flags(ps.len(), hits);
    lemma_first_from(flags, is_set(), 0);
    assert forall|k: int| 0 <= k < ps.len() implies is_set()(#[trigger] flags[k]) == path_hit(
        ps[k],
        dir,
        home,
    ) by {
    }
    assert(project_for_dir(ps, dir, remote, home) == first_where(flags, is_set()));
    match first_where(flags, is_set()) {
        Some(j) => {
            assert(is_set()(flags[j]));
            assert forall|k: int| 0 <= k < j implies !path_hit(#[trigger] ps[k], dir, home) by {
                assert(!is_set()(flags[k]));
            }
        },
        None => {
            assert forall|k: int| 0 <= k < ps.len() implies !path_hit(#[trigger] ps[k], dir, home) by {
                assert(!is_set()(flags[k]));
            }
        },
    }
}

} // verus!
