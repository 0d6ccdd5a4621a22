//! The config (projects and their files) and the link state (what is linked
//! or ignored where), with their views and the changes the commands make.
use vstd::prelude::*;
use vstd::string::*;
use crate::text::str_eq;
use crate::paths::{path_starts_with, starts_with};
use crate::error::PrivconfError;

verus! {

/// A project of the store: its name, how a directory is matched to it, the
/// files kept in the store for it and the files only hidden from git.
pub struct ProjectEntry {
    pub name: String,
    pub match_remote: Option<String>,
    pub match_path: Option<String>,
    pub files: Vec<String>,
    pub ignored: Vec<String>,
}

/// The config file: all projects, in order.
pub struct Config {
    pub project: Vec<ProjectEntry>,
}

/// One linked (or ignored) file: its project, its path relative to the
/// project directory, where it was linked, and how git hides it.
pub struct LinkedEntry {
    pub project: String,
    pub file: String,
    pub target: String,
    pub skip_worktree: bool,
    pub ignored: bool,
}

/// The state file: every linked or ignored file, in order.
pub struct State {
    pub linked: Vec<LinkedEntry>,
}

/// The mathematical value of a project.
pub struct ProjectView {
    pub name: Seq<char>,
    pub match_remote: Option<Seq<char>>,
    pub match_path: Option<Seq<char>>,
    pub files: Seq<Seq<char>>,
    pub ignored: Seq<Seq<char>>,
}

/// The mathematical value of a link record.
pub struct LinkedView {
    pub project: Seq<char>,
    pub file: Seq<char>,
    pub target: Seq<char>,
    pub skip_worktree: bool,
    pub ignored: bool,
}

/// The characters of an optional string.
pub open spec fn opt_view(o: Option<String>) -> Option<Seq<char>> {
    match o {
        Some(s) => Some(s@),
        None => None,
    }
}

impl View for ProjectEntry {
    type V = ProjectView;

    open spec fn view(&self) -> ProjectView {
        ProjectView {
            name: self.name@,
            match_remote: opt_view(self.match_remote),
            match_path: opt_view(self.match_path),
            files: self.files.deep_view(),
            ignored: self.ignored.deep_view(),
        }
    }
}

impl View for Config {
    type V = Seq<ProjectView>;

    open spec fn view(&self) -> Seq<ProjectView> {
        self.project@.map_values(|p: ProjectEntry| p@)
    }
}

impl View for LinkedEntry {
    type V = LinkedView;

    open spec fn view(&self) -> LinkedView {
        LinkedView {
            project: self.project@,
            file: self.file@,
            target: self.target@,
            skip_worktree: self.skip_worktree,
            ignored: self.ignored,
        }
    }
}

impl View for State {
    type V = Seq<LinkedView>;

    open spec fn view(&self) -> Seq<LinkedView> {
        self.linked@.map_values(|e: LinkedEntry| e@)
    }
}

/// A copy of an optional string.
pub fn clone_opt(o: &Option<String>) -> (r: Option<String>)
    ensures
        opt_view(r) == opt_view(*o),
{
    match o {
        Some(s) => Some(s.clone()),
        None => None,
    }
}

/// A copy of a list of strings.
pub fn clone_strings(v: &Vec<String>) -> (r: Vec<String>)
    ensures
        r.deep_view() == v.deep_view(),
{
    let mut out: Vec<String> = Vec::new();
    let mut i: usize = 0;
    while i < v.len()
        invariant
            i <= v.len(),
            out.deep_view() == v.deep_view().take(i as int),
        decreases v.len() - i,
    {
        let ghost prev = out.deep_view();
        out.push(v[i].clone());
        assert(out.deep_view() =~= prev.push(v[i as int]@));
        assert(v.deep_view().take(i + 1) =~= v.deep_view().take(i as int).push(v[i as int]@));
        i = i + 1;
    }
    assert(v.deep_view().take(v.len() as int) =~= v.deep_view());
    out
}

impl LinkedEntry {
    /// A copy of this record.
    pub fn copy(&self) -> (r: LinkedEntry)
        ensures
            r@ == self@,
    {
        LinkedEntry {
            project: self.project.clone(),
            file: self.file.clone(),
            target: self.target.clone(),
            skip_worktree: self.skip_worktree,
            ignored: self.ignored,
        }
    }
}

impl ProjectEntry {
    /// A copy of this project.
    pub fn copy(&self) -> (r: ProjectEntry)
        ensures
            r@ == self@,
    {
        ProjectEntry {
            name: self.name.clone(),
            match_remote: clone_opt(&self.match_remote),
            match_path: clone_opt(&self.match_path),
            files: clone_strings(&self.files),
            ignored: clone_strings(&self.ignored),
        }
    }
}

/// The first index at or after `i` whose element satisfies `f`.
pub open spec fn first_from<A>(s: Seq<A>, f: spec_fn(A) -> bool, i: int) -> Option<int>
    decreases s.len() - i,
{
    if i < 0 || i >= s.len() {
        None
    } else if f(s[i]) {
        Some(i)
    } else {
        first_from(s, f, i + 1)
    }
}

/// The first index whose element satisfies `f`.
pub open spec fn first_where<A>(s: Seq<A>, f: spec_fn(A) -> bool) -> Option<int> {
    first_from(s, f, 0)
}

pub proof fn lemma_first_from<A>(s: Seq<A>, f: spec_fn(A) -> bool, i: int)
    requires
        0 <= i <= s.len(),
    ensures
        match first_from(s, f, i) {
            Some(k) => i <= k < s.len() && f(s[k]) && forall|j: int| i <= j < k ==> !f(#[trigger] s[j]),
            None => forall|j: int| i <= j < s.len() ==> !f(#[trigger] s[j]),
        },
    decreases s.len() - i,
{
    if i < s.len() && !f(s[i]) {
        lemma_first_from(s, f, i + 1);
    }
}

pub proof fn lemma_first_from_skip<A>(s: Seq<A>, f: spec_fn(A) -> bool, i: int)
    requires
        0 <= i <= s.len(),
        forall|j: int| 0 <= j < i ==> !f(#[trigger] s[j]),
    ensures
        first_from(s, f, 0) == first_from(s, f, i),
    decreases i,
{
    if i > 0 {
        lemma_first_from_skip(s, f, i - 1);
    }
}

/// Whether a project carries the name `name`.
pub open spec fn named(name: Seq<char>) -> spec_fn(ProjectView) -> bool {
    |p: ProjectView| p.name == name
}

/// `xs` with each element of `ys` appended, in order, unless it is already
/// there.
pub open spec fn merge_new(xs: Seq<Seq<char>>, ys: Seq<Seq<char>>) -> Seq<Seq<char>>
    decreases ys.len(),
{
    if ys.len() == 0 {
        xs
    } else {
        let m = merge_new(xs, ys.drop_last());
        if m.contains(ys.last()) {
            m
        } else {
            m.push(ys.last())
        }
    }
}

/// The projects after `add` with `files` for the project `name`: a project
/// of that name gains the files it lacks and takes `remote` when it had no
/// remote; with no such project, a new one is appended.
pub open spec fn spec_add_files(
    ps: Seq<ProjectView>,
    name: Seq<char>,
    files: Seq<Seq<char>>,
    remote: Option<Seq<char>>,
) -> Seq<ProjectView> {
    match first_where(ps, named(name)) {
        Some(i) => ps.update(
            i,
            ProjectView {
                files: merge_new(ps[i].files, files),
                match_remote: if ps[i].match_remote is None {
                    remote
                } else {
                    ps[i].match_remote
                },
                ..ps[i]
            },
        ),
        None => ps.push(
            ProjectView {
                name,
                match_remote: remote,
                match_path: None,
                files,
                ignored: seq![],
            },
        ),
    }
}

/// The projects after `ignore` with `files` for the project `name`: a
/// project of that name gains the ignored files it lacks; with no such
/// project, a new one with only ignored files is appended.
pub open spec fn spec_add_ignored(
    ps: Seq<ProjectView>,
    name: Seq<char>,
    files: Seq<Seq<char>>,
    remote: Option<Seq<char>>,
) -> Seq<ProjectView> {
    match first_where(ps, named(name)) {
        Some(i) => ps.update(i, ProjectView { ignored: merge_new(ps[i].ignored, files), ..ps[i] }),
        None => ps.push(
            ProjectView {
                name,
                match_remote: remote,
                match_path: None,
                files: seq![],
                ignored: files,
            },
        ),
    }
}

/// Whether a file is not among `files`.
pub open spec fn not_in(files: Seq<Seq<char>>) -> spec_fn(Seq<char>) -> bool {
    |f: Seq<char>| !files.contains(f)
}

/// Whether a project does not carry the name `name`.
pub open spec fn not_named(name: Seq<char>) -> spec_fn(ProjectView) -> bool {
    |p: ProjectView| p.name != name
}

/// The first project named `name` with `files` taken out of its files and
/// of its ignored files.
pub open spec fn pruned(p: ProjectView, files: Seq<Seq<char>>) -> ProjectView {
    ProjectView { files: p.files.filter(not_in(files)), ignored: p.ignored.filter(not_in(files)), ..p }
}

/// The projects after `remove` with `files` from the project `name` (which
/// exists): the files leave its lists, and when none of its files is left,
/// every project of that name leaves the config.
pub open spec fn spec_remove_files(
    ps: Seq<ProjectView>,
    name: Seq<char>,
    files: Seq<Seq<char>>,
) -> Seq<ProjectView> {
    let i = first_where(ps, named(name))->Some_0;
    let p = pruned(ps[i], files);
    if p.files.len() == 0 {
        ps.update(i, p).filter(not_named(name))
    } else {
        ps.update(i, p)
    }
}

/// Whether two strings are equal, as a `String` and a `&str`.
fn string_is(a: &String, b: &str) -> (r: bool)
    ensures
        r == (a@ == b@),
{
    str_eq(a.as_str(), b)
}

/// `xs` with each element of `ys` appended unless it is already there.
pub fn merge_new_strings(xs: &mut Vec<String>, ys: &Vec<String>)
    ensures
        final(xs).deep_view() == merge_new(old(xs).deep_view(), ys.deep_view()),
{
    let ghost start = xs.deep_view();
    let mut i: usize = 0;
    assert(ys.deep_view().take(0) =~= Seq::<Seq<char>>::empty());
    while i < ys.len()
        invariant
            i <= ys.len(),
            xs.deep_view() == merge_new(start, ys.deep_view().take(i as int)),
        decreases ys.len() - i,
    {
        let ghost cur = xs.deep_view();
        let y = ys[i].as_str();
        let mut found = false;
        let mut j: usize = 0;
        while j < xs.len()
            invariant
                j <= xs.len(),
                xs.deep_view() == cur,
                found == (exists|k: int| 0 <= k < j && cur[k] == y@),
            decreases xs.len() - j,
        {
            if string_is(&xs[j], y) {
                found = true;
            }
            assert(cur[j as int] == xs[j as int]@);
            j = j + 1;
        }
        proof {
            let t = ys.deep_view().take(i + 1);
            assert(t.drop_last() =~= ys.deep_view().take(i as int));
            assert(t.last() == y@);
            if found {
                let k = choose|k: int| 0 <= k < j && cur[k] == y@;
                assert(cur.contains(y@));
            } else {
                assert(!cur.contains(y@));
            }
        }
        if !found {
            xs.push(String::from_str(y));
            assert(xs.deep_view() =~= cur.push(y@));
        }
        i = i + 1;
    }
    assert(ys.deep_view().take(ys.len() as int) =~= ys.deep_view());
}

/// `xs` without the elements that occur in `ys`.
pub fn strings_without(xs: &Vec<String>, ys: &Vec<String>) -> (r: Vec<String>)
    ensures
        r.deep_view() == xs.deep_view().filter(not_in(ys.deep_view())),
{
    let ghost all = xs.deep_view();
    let ghost drop = ys.deep_view();
    let mut out: Vec<String> = Vec::new();
    let mut i: usize = 0;
    while i < xs.len()
        invariant
            i <= xs.len(),
            all == xs.deep_view(),
            drop == ys.deep_view(),
            out.deep_view() == all.take(i as int).filter(not_in(drop)),
        decreases xs.len() - i,
    {
        let x = xs[i].as_str();
        let mut found = false;
        let mut j: usize = 0;
        while j < ys.len()
            invariant
                j <= ys.len(),
                drop == ys.deep_view(),
                found == (exists|k: int| 0 <= k < j && drop[k] == x@),
            decreases ys.len() - j,
        {
            if string_is(&ys[j], x) {
                found = true;
            }
            assert(drop[j as int] == ys[j as int]@);
            j = j + 1;
        }
        proof {
            if found {
                let k = choose|k: int| 0 <= k < j && drop[k] == x@;
                assert(drop.contains(x@));
            }
            let t = all.take(i + 1);
            assert(t.drop_last() =~= all.take(i as int));
            assert(t.last() == x@);
            reveal(Seq::filter);
        }
        let ghost prev = out.deep_view();
        if !found {
            out.push(String::from_str(x));
            assert(out.deep_view() =~= prev.push(x@));
        }
        i = i + 1;
    }
    assert(all.take(xs.len() as int) =~= all);
    out
}

impl Config {
    /// A config with no project.
    pub fn empty() -> (r: Config)
        ensures
            r@ == Seq::<ProjectView>::empty(),
    {
        let r = Config { project: Vec::new() };
        assert(r@ =~= Seq::<ProjectView>::empty());
        r
    }

    /// The index of the first project named `name`.
    pub fn find_project(&self, name: &str) -> (r: Option<usize>)
        ensures
            match r {
                Some(i) => first_where(self@, named(name@)) == Some(i as int) && i < self@.len()
                    && self@[i as int].name == name@,
                None => first_where(self@, named(name@)) is None,
            },
    {
        let mut i: usize = 0;
        while i < self.project.len()
            invariant
                i <= self.project.len(),
                forall|j: int| 0 <= j < i ==> !named(name@)(#[trigger] self@[j]),
            decreases self.project.len() - i,
        {
            if string_is(&self.project[i].name, name) {
                proof {
                    lemma_first_from_skip(self@, named(name@), i as int);
                }
                return Some(i);
            }
            i = i + 1;
        }
        proof {
            lemma_first_from_skip(self@, named(name@), i as int);
        }
        None
    }

    /// Puts `p` at index `i`.
    fn replace_project(&mut self, i: usize, p: ProjectEntry)
        requires
            i < old(self).project.len(),
        ensures
            final(self)@ == old(self)@.update(i as int, p@),
    {
        let _ = self.project.remove(i);
        self.project.insert(i, p);
        assert(self@ =~= old(self)@.update(i as int, p@));
    }

    /// Adds `files` to the project `name`, creating the project (with
    /// `match_remote`) when there is none; returns whether it was created.
    pub fn add_files(&mut self, name: &str, files: &Vec<String>, match_remote: Option<String>) -> (created: bool)
        ensures
            final(self)@ == spec_add_files(old(self)@, name@, files.deep_view(), opt_view(match_remote)),
            created == (first_where(old(self)@, named(name@)) is None),
            created ==> final(self)@ == old(self)@.push(
                ProjectView {
                    name: name@,
                    match_remote: opt_view(match_remote),
                    match_path: None,
                    files: files.deep_view(),
                    ignored: seq![],
                },
            ),
            !created ==> final(self)@.len() == old(self)@.len(),
    {
        match self.find_project(name) {
            Some(i) => {
                let mut p = self.project[i].copy();
                merge_new_strings(&mut p.files, files);
                if p.match_remote.is_none() {
                    p.match_remote = match_remote;
                }
                self.replace_project(i, p);
                assert(self@ =~= spec_add_files(old(self)@, name@, files.deep_view(), opt_view(match_remote)));
                false
            },
            None => {
                let p = ProjectEntry {
                    name: String::from_str(name),
                    match_remote,
                    match_path: None,
                    files: clone_strings(files),
                    ignored: Vec::new(),
                };
                self.project.push(p);
                assert(p.ignored.deep_view() =~= Seq::<Seq<char>>::empty());
                assert(self@ =~= old(self)@.push(p@));
                true
            },
        }
    }

    /// Adds `files` to the ignored files of the project `name`, creating the
    /// project (with `match_remote`) when there is none; returns whether it
    /// was created.
    pub fn add_ignored(&mut self, name: &str, files: &Vec<String>, match_remote: Option<String>) -> (created: bool)
        ensures
            final(self)@ == spec_add_ignored(old(self)@, name@, files.deep_view(), opt_view(match_remote)),
            created == (first_where(old(self)@, named(name@)) is None),
            created ==> final(self)@ == old(self)@.push(
                ProjectView {
                    name: name@,
                    match_remote: opt_view(match_remote),
                    match_path: None,
                    files: seq![],
                    ignored: files.deep_view(),
                },
            ),
            !created ==> final(self)@.len() == old(self)@.len(),
    {
        match self.find_project(name) {
            Some(i) => {
                let mut p = self.project[i].copy();
                merge_new_strings(&mut p.ignored, files);
                self.replace_project(i, p);
                assert(self@ =~= spec_add_ignored(old(self)@, name@, files.deep_view(), opt_view(match_remote)));
                false
            },
            None => {
                let p = ProjectEntry {
                    name: String::from_str(name),
                    match_remote,
                    match_path: None,
                    files: Vec::new(),
                    ignored: clone_strings(files),
                };
                self.project.push(p);
                assert(p.files.deep_view() =~= Seq::<Seq<char>>::empty());
                assert(self@ =~= old(self)@.push(p@));
                true
            },
        }
    }

    /// Takes `files` out of the project `name`; drops every project of that
    /// name when none of its files is left. Returns whether the project was
    /// dropped, or `ProjectNotFound` (and no change) when there is no such
    /// project.
    pub fn remove_files(&mut self, name: &str, files: &Vec<String>) -> (r: Result<bool, PrivconfError>)
        ensures
            match first_where(old(self)@, named(name@)) {
                None => final(self)@ == old(self)@ && (r matches Err(
                    PrivconfError::ProjectNotFound { name: n },
                ) && n@ == name@),
                Some(i) => final(self)@ == spec_remove_files(old(self)@, name@, files.deep_view())
                    && r == Ok::<bool, PrivconfError>(
                    pruned(old(self)@[i], files.deep_view()).files.len() == 0,
                ),
            },
            r == Ok::<bool, PrivconfError>(true) ==> forall|k: int|
                0 <= k < final(self)@.len() ==> (#[trigger] final(self)@[k]).name != name@,
            r == Ok::<bool, PrivconfError>(false) ==> final(self)@.len() == old(self)@.len() && exists|k: int|
                0 <= k < final(self)@.len() && (#[trigger] final(self)@[k]).name == name@
                    && final(self)@[k].files.len() > 0,
    {
        match self.find_project(name) {
            None => Err(PrivconfError::ProjectNotFound { name: String::from_str(name) }),
            Some(i) => {
                let old_p = &self.project[i];
                let p = ProjectEntry {
                    name: old_p.name.clone(),
                    match_remote: clone_opt(&old_p.match_remote),
                    match_path: clone_opt(&old_p.match_path),
                    files: strings_without(&old_p.files, files),
                    ignored: strings_without(&old_p.ignored, files),
                };
                let empty = p.files.len() == 0;
                proof {
                    lemma_remove_outcome(old(self)@, name@, files.deep_view());
                }
                self.replace_project(i, p);
                if empty {
                    self.drop_named(name);
                }
                Ok(empty)
            },
        }
    }

    /// Drops every project named `name`.
    fn drop_named(&mut self, name: &str)
        ensures
            final(self)@ == old(self)@.filter(not_named(name@)),
    {
        let ghost all = self@;
        let mut kept: Vec<ProjectEntry> = Vec::new();
        let mut i: usize = 0;
        while i < self.project.len()
            invariant
                i <= self.project.len(),
                all == self@,
                kept@.map_values(|p: ProjectEntry| p@) == all.take(i as int).filter(not_named(name@)),
            decreases self.project.len() - i,
        {
            let ghost prev = kept@.map_values(|p: ProjectEntry| p@);
            let keep = !string_is(&self.project[i].name, name);
            proof {
                let t = all.take(i + 1);
                assert(t.drop_last() =~= all.take(i as int));
                assert(t.last() == self.project[i as int]@);
                reveal(Seq::filter);
            }
            if keep {
                let p = self.project[i].copy();
                kept.push(p);
                assert(kept@.map_values(|p: ProjectEntry| p@) =~= prev.push(p@));
            }
            i = i + 1;
        }
        assert(all.take(self.project.len() as int) =~= all);
        self.project = kept;
    }
}

impl Default for State {
    /// A state with no record.
    fn default() -> (r: State)
        ensures
            r@ == Seq::<LinkedView>::empty(),
    {
        State::empty()
    }
}

/// Whether a link record is not the one of `project` and `file`.
pub open spec fn other_key(project: Seq<char>, file: Seq<char>) -> spec_fn(LinkedView) -> bool {
    |e: LinkedView| !(e.project == project && e.file == file)
}

/// Whether a link record is the one of `project` and `file`.
pub open spec fn same_key(project: Seq<char>, file: Seq<char>) -> spec_fn(LinkedView) -> bool {
    |e: LinkedView| e.project == project && e.file == file
}

/// Whether a link record's target lies under `dir`.
pub open spec fn under(dir: Seq<char>) -> spec_fn(LinkedView) -> bool {
    |e: LinkedView| path_starts_with(e.target, dir)
}

impl State {
    /// A state with no record (`State::default`).
    pub fn empty() -> (r: State)
        ensures
            r@ == Seq::<LinkedView>::empty(),
    {
        let r = State { linked: Vec::new() };
        assert(r@ =~= Seq::<LinkedView>::empty());
        r
    }

    /// Drops every record of `project` and `file`, keeping the others in
    /// order.
    fn retain_other(&mut self, project: &str, file: &str)
        ensures
            final(self)@ == old(self)@.filter(other_key(project@, file@)),
    {
        let ghost all = self@;
        let mut kept: Vec<LinkedEntry> = Vec::new();
        let mut i: usize = 0;
        while i < self.linked.len()
            invariant
                i <= self.linked.len(),
                all == self@,
                kept@.map_values(|e: LinkedEntry| e@) == all.take(i as int).filter(
                    other_key(project@, file@),
                ),
            decreases self.linked.len() - i,
        {
            let ghost prev = kept@.map_values(|e: LinkedEntry| e@);
            let e = &self.linked[i];
            let keep = !(string_is(&e.project, project) && string_is(&e.file, file));
            proof {
                let t = all.take(i + 1);
                assert(t.drop_last() =~= all.take(i as int));
                assert(t.last() == self.linked[i as int]@);
                reveal(Seq::filter);
            }
            if keep {
                let c = e.copy();
                kept.push(c);
                assert(kept@.map_values(|e: LinkedEntry| e@) =~= prev.push(c@));
            }
            i = i + 1;
        }
        assert(all.take(self.linked.len() as int) =~= all);
        self.linked = kept;
    }

    /// Records `entry`, replacing every record of its project and file.
    pub fn record_link(&mut self, entry: LinkedEntry)
        ensures
            final(self)@ == old(self)@.filter(other_key(entry@.project, entry@.file)).push(entry@),
    {
        self.retain_other(entry.project.as_str(), entry.file.as_str());
        let ghost mid = self@;
        self.linked.push(entry);
        assert(self@ =~= mid.push(entry@));
    }

    /// Drops every record of `project` and `file`.
    pub fn forget(&mut self, project: &str, file: &str)
        ensures
            final(self)@ == old(self)@.filter(other_key(project@, file@)),
    {
        self.retain_other(project, file);
    }

    /// The index of the first record of `project` and `file`.
    pub fn find_entry(&self, project: &str, file: &str) -> (r: Option<usize>)
        ensures
            match r {
                Some(i) => first_where(self@, same_key(project@, file@)) == Some(i as int) && i
                    < self@.len() && same_key(project@, file@)(self@[i as int]),
                None => first_where(self@, same_key(project@, file@)) is None,
            },
    {
        let mut i: usize = 0;
        while i < self.linked.len()
            invariant
                i <= self.linked.len(),
                forall|j: int| 0 <= j < i ==> !same_key(project@, file@)(#[trigger] self@[j]),
            decreases self.linked.len() - i,
        {
            if string_is(&self.linked[i].project, project) && string_is(&self.linked[i].file, file) {
                proof {
                    lemma_first_from_skip(self@, same_key(project@, file@), i as int);
                }
                return Some(i);
            }
            i = i + 1;
        }
        proof {
            lemma_first_from_skip(self@, same_key(project@, file@), i as int);
        }
        None
    }

    /// The records whose target lies under `dir`, in order.
    pub fn entries_under(&self, dir: &str) -> (r: Vec<LinkedEntry>)
        ensures
            r@.map_values(|e: LinkedEntry| e@) == self@.filter(under(dir@)),
    {
        let ghost all = self@;
        let mut out: Vec<LinkedEntry> = Vec::new();
        let mut i: usize = 0;
        while i < self.linked.len()
            invariant
                i <= self.linked.len(),
                all == self@,
                out@.map_values(|e: LinkedEntry| e@) == all.take(i as int).filter(under(dir@)),
            decreases self.linked.len() - i,
        {
            let ghost prev = out@.map_values(|e: LinkedEntry| e@);
            let e = &self.linked[i];
            let keep = starts_with(e.target.as_str(), dir);
            proof {
                let t = all.take(i + 1);
                assert(t.drop_last() =~= all.take(i as int));
                assert(t.last() == self.linked[i as int]@);
                reveal(Seq::filter);
            }
            if keep {
                let c = e.copy();
                out.push(c);
                assert(out@.map_values(|e: LinkedEntry| e@) =~= prev.push(c@));
            }
            i = i + 1;
        }
        assert(all.take(self.linked.len() as int) =~= all);
        out
    }

    /// Whether `file` of `project` is recorded as linked under `dir`.
    pub fn is_linked_under(&self, project: &str, file: &str, dir: &str) -> (r: bool)
        ensures
            r == exists|i: int|
                0 <= i < self@.len() && same_key(project@, file@)(#[trigger] self@[i]) && under(dir@)(
                    self@[i],
                ),
    {
        let mut i: usize = 0;
        while i < self.linked.len()
            invariant
                i <= self.linked.len(),
                forall|j: int|
                    0 <= j < i ==> !(same_key(project@, file@)(#[trigger] self@[j]) && under(dir@)(
                        self@[j],
                    )),
            decreases self.linked.len() - i,
        {
            let e = &self.linked[i];
            if string_is(&e.project, project) && string_is(&e.file, file) && starts_with(
                e.target.as_str(),
                dir,
            ) {
                assert(same_key(project@, file@)(self@[i as int]) && under(dir@)(self@[i as int]));
                return true;
            }
            i = i + 1;
        }
        false
    }

    /// Whether `file` of `project` is recorded as ignored.
    pub fn is_ignored(&self, project: &str, file: &str) -> (r: bool)
        ensures
            r == exists|i: int|
                0 <= i < self@.len() && same_key(project@, file@)(#[trigger] self@[i]) && self@[i].ignored,
    {
        let mut i: usize = 0;
        while i < self.linked.len()
            invariant
                i <= self.linked.len(),
                forall|j: int|
                    0 <= j < i ==> !(same_key(project@, file@)(#[trigger] self@[j]) && self@[j].ignored),
            decreases self.linked.len() - i,
        {
            let e = &self.linked[i];
            if string_is(&e.project, project) && string_is(&e.file, file) && e.ignored {
                assert(same_key(project@, file@)(self@[i as int]) && self@[i as int].ignored);
                return true;
            }
            i = i + 1;
        }
        false
    }
}

pub proof fn lemma_filter_push<A>(s: Seq<A>, x: A, p: spec_fn(A) -> bool)
    ensures
        s.push(x).filter(p) == (if p(x) {
            s.filter(p).push(x)
        } else {
            s.filter(p)
        }),
{
    reveal(Seq::filter);
    assert(s.push(x).drop_last() =~= s);
    assert(s.push(x).last() == x);
}

pub proof fn lemma_filter_all<A>(s: Seq<A>, p: spec_fn(A) -> bool)
    requires
        forall|i: int| 0 <= i < s.len() ==> p(#[trigger] s[i]),
    ensures
        s.filter(p) == s,
    decreases s.len(),
{
    reveal(Seq::filter);
    if s.len() > 0 {
        lemma_filter_all(s.drop_last(), p);
        assert(s.drop_last().push(s.last()) =~= s);
    }
}

pub proof fn lemma_filter_and<A>(s: Seq<A>, p: spec_fn(A) -> bool, q: spec_fn(A) -> bool)
    ensures
        s.filter(p).filter(q) == s.filter(|x: A| p(x) && q(x)),
    decreases s.len(),
{
    reveal(Seq::filter);
    if s.len() > 0 {
        lemma_filter_and(s.drop_last(), p, q);
        let sp = s.drop_last().filter(p);
        if p(s.last()) {
            lemma_filter_push(sp, s.last(), q);
        }
    }
}

pub proof fn lemma_filter_twice<A>(s: Seq<A>, p: spec_fn(A) -> bool)
    ensures
        s.filter(p).filter(p) == s.filter(p),
{
    lemma_filter_and(s, p, p);
    assert((|x: A| p(x) && p(x)) =~= p);
}

pub proof fn lemma_merge_contains(xs: Seq<Seq<char>>, ys: Seq<Seq<char>>)
    ensures
        forall|j: int| 0 <= j < ys.len() ==> merge_new(xs, ys).contains(#[trigger] ys[j]),
        forall|j: int| 0 <= j < xs.len() ==> merge_new(xs, ys).contains(#[trigger] xs[j]),
    decreases ys.len(),
{
    if ys.len() > 0 {
        let m = merge_new(xs, ys.drop_last());
        lemma_merge_contains(xs, ys.drop_last());
        let r = merge_new(xs, ys);
        assert forall|j: int| 0 <= j < ys.len() implies r.contains(#[trigger] ys[j]) by {
            if j < ys.len() - 1 {
                assert(ys.drop_last()[j] == ys[j]);
                let k = choose|k: int| 0 <= k < m.len() && m[k] == ys[j];
                if !m.contains(ys.last()) {
                    assert(r[k] == m[k]);
                }
            } else if !m.contains(ys.last()) {
                assert(r[m.len() as int] == ys.last());
            }
        }
        assert forall|j: int| 0 <= j < xs.len() implies r.contains(#[trigger] xs[j]) by {
            let k = choose|k: int| 0 <= k < m.len() && m[k] == xs[j];
            if !m.contains(ys.last()) {
                assert(r[k] == m[k]);
            }
        }
    }
}

pub proof fn lemma_merge_noop(xs: Seq<Seq<char>>, ys: Seq<Seq<char>>)
    requires
        forall|j: int| 0 <= j < ys.len() ==> xs.contains(#[trigger] ys[j]),
    ensures
        merge_new(xs, ys) == xs,
    decreases ys.len(),
{
    if ys.len() > 0 {
        assert forall|j: int| 0 <= j < ys.drop_last().len() implies xs.contains(
            #[trigger] ys.drop_last()[j],
        ) by {
            assert(ys.drop_last()[j] == ys[j]);
        }
        lemma_merge_noop(xs, ys.drop_last());
        assert(xs.contains(ys[ys.len() - 1]));
    }
}

proof fn lemma_first_update<A>(s: Seq<A>, f: spec_fn(A) -> bool, i: int, x: A)
    requires
        first_where(s, f) == Some(i),
        f(x),
    ensures
        first_where(s.update(i, x), f) == Some(i),
{
    lemma_first_from(s, f, 0);
    let t = s.update(i, x);
    assert forall|j: int| 0 <= j < i implies !f(#[trigger] t[j]) by {
        assert(t[j] == s[j]);
    }
    lemma_first_from_skip(t, f, i);
}

proof fn lemma_first_push<A>(s: Seq<A>, f: spec_fn(A) -> bool, x: A)
    requires
        first_where(s, f) is None,
        f(x),
    ensures
        first_where(s.push(x), f) == Some(s.len() as int),
{
    lemma_first_from(s, f, 0);
    let t = s.push(x);
    assert forall|j: int| 0 <= j < s.len() implies !f(#[trigger] t[j]) by {
        assert(t[j] == s[j]);
    }
    lemma_first_from_skip(t, f, s.len() as int);
}

/// After `add`, the project `name` exists and holds every added file, and
/// it is the project that a later lookup by that name finds.
pub proof fn law_add_files_holds_files(
    ps: Seq<ProjectView>,
    name: Seq<char>,
    files: Seq<Seq<char>>,
    remote: Option<Seq<char>>,
)
    ensures
        ({
            let after = spec_add_files(ps, name, files, remote);
            &&& first_where(after, named(name)) is Some
            &&& forall|j: int|
                0 <= j < files.len() ==> after[first_where(after, named(name))->Some_0].files.contains(
                    #[trigger] files[j],
                )
        }),
{
    lemma_first_from(ps, named(name), 0);
    match first_where(ps, named(name)) {
        Some(i) => {
            let p = ps[i];
            let q = ProjectView {
                files: merge_new(p.files, files),
                match_remote: if p.match_remote is None {
                    remote
                } else {
                    p.match_remote
                },
                ..p
            };
            lemma_first_update(ps, named(name), i, q);
            lemma_merge_contains(p.files, files);
        },
        None => {
            let q = ProjectView {
                name,
                match_remote: remote,
                match_path: None,
                files,
                ignored: seq![],
            };
            lemma_first_push(ps, named(name), q);
            assert forall|j: int| 0 <= j < files.len() implies files.contains(#[trigger] files[j]) by {
            }
        },
    }
}

/// Adding the same files to the same project a second time changes
/// nothing.
pub proof fn law_add_files_idempotent(
    ps: Seq<ProjectView>,
    name: Seq<char>,
    files: Seq<Seq<char>>,
    remote: Option<Seq<char>>,
)
    ensures
        spec_add_files(spec_add_files(ps, name, files, remote), name, files, remote)
            == spec_add_files(ps, name, files, remote),
{
    let after = spec_add_files(ps, name, files, remote);
    law_add_files_holds_files(ps, name, files, remote);
    lemma_first_from(ps, named(name), 0);
    let i = first_where(after, named(name))->Some_0;
    lemma_merge_noop(after[i].files, files);
    let again = spec_add_files(after, name, files, remote);
    assert(again =~= after) by {
        match first_where(ps, named(name)) {
            Some(k) => {
                let p = ps[k];
                let q = ProjectView {
                    files: merge_new(p.files, files),
                    match_remote: if p.match_remote is None {
                        remote
                    } else {
                        p.match_remote
                    },
                    ..p
                };
                lemma_first_update(ps, named(name), k, q);
            },
            None => {
                let q = ProjectView {
                    name,
                    match_remote: remote,
                    match_path: None,
                    files,
                    ignored: seq![],
                };
                lemma_first_push(ps, named(name), q);
            },
        }
    }
}

/// Ignoring the same files for the same project a second time changes
/// nothing.
pub proof fn law_add_ignored_idempotent(
    ps: Seq<ProjectView>,
    name: Seq<char>,
    files: Seq<Seq<char>>,
    remote: Option<Seq<char>>,
)
    ensures
        spec_add_ignored(spec_add_ignored(ps, name, files, remote), name, files, remote)
            == spec_add_ignored(ps, name, files, remote),
{
    let after = spec_add_ignored(ps, name, files, remote);
    lemma_first_from(ps, named(name), 0);
    match first_where(ps, named(name)) {
        Some(k) => {
            let p = ps[k];
            let q = ProjectView { ignored: merge_new(p.ignored, files), ..p };
            lemma_first_update(ps, named(name), k, q);
            lemma_merge_contains(p.ignored, files);
            lemma_merge_noop(q.ignored, files);
            assert(spec_add_ignored(after, name, files, remote) =~= after);
        },
        None => {
            let q = ProjectView {
                name,
                match_remote: remote,
                match_path: None,
                files: seq![],
                ignored: files,
            };
            lemma_first_push(ps, named(name), q);
            assert forall|j: int| 0 <= j < files.len() implies files.contains(#[trigger] files[j]) by {
            }
            lemma_merge_noop(files, files);
            assert(spec_add_ignored(after, name, files, remote) =~= after);
        },
    }
}

/// Removing the files of a project that `add` has just created gives back
/// the config from before the `add`.
pub proof fn law_remove_undoes_add(
    ps: Seq<ProjectView>,
    name: Seq<char>,
    files: Seq<Seq<char>>,
    remote: Option<Seq<char>>,
)
    requires
        first_where(ps, named(name)) is None,
    ensures
        spec_remove_files(spec_add_files(ps, name, files, remote), name, files) == ps,
{
    lemma_first_from(ps, named(name), 0);
    let q = ProjectView { name, match_remote: remote, match_path: None, files, ignored: seq![] };
    let after = ps.push(q);
    lemma_first_push(ps, named(name), q);
    let p = pruned(q, files);
    assert forall|j: int| 0 <= j < files.len() implies !not_in(files)(#[trigger] files[j]) by {
        assert(files.contains(files[j]));
    }
    broadcast use vstd::seq_lib::group_filter_ensures;
    if p.files.len() > 0 {
        files.lemma_filter_pred(not_in(files), 0);
        let k = choose|k: int| 0 <= k < files.len() && files[k] == p.files[0];
        files.lemma_filter_contains_rev(not_in(files), p.files[0]);
        assert(false);
    }
    let updated = after.update(ps.len() as int, p);
    assert(updated =~= ps.push(p));
    lemma_filter_push(ps, p, not_named(name));
    lemma_filter_all(ps, not_named(name));
}

/// Forgetting a file after recording it is forgetting it.
pub proof fn law_forget_after_record(s: Seq<LinkedView>, e: LinkedView)
    ensures
        s.filter(other_key(e.project, e.file)).push(e).filter(other_key(e.project, e.file)) == s.filter(
            other_key(e.project, e.file),
        ),
{
    let k = other_key(e.project, e.file);
    lemma_filter_push(s.filter(k), e, k);
    lemma_filter_twice(s, k);
}

/// Forgetting twice is forgetting once.
pub proof fn law_forget_idempotent(s: Seq<LinkedView>, project: Seq<char>, file: Seq<char>)
    ensures
        s.filter(other_key(project, file)).filter(other_key(project, file)) == s.filter(
            other_key(project, file),
        ),
{
    lemma_filter_twice(s, other_key(project, file));
}

/// After recording, the new record is the only one of its file, and it is
/// the last.
pub proof fn law_record_is_unique(s: Seq<LinkedView>, e: LinkedView)
    ensures
        ({
            let after = s.filter(other_key(e.project, e.file)).push(e);
            &&& after.last() == e
            &&& forall|i: int|
                0 <= i < after.len() - 1 ==> !same_key(e.project, e.file)(#[trigger] after[i])
        }),
{
    broadcast use vstd::seq_lib::group_filter_ensures;

    let k = other_key(e.project, e.file);
    let f = s.filter(k);
    let after = f.push(e);
    assert forall|i: int| 0 <= i < after.len() - 1 implies !same_key(e.project, e.file)(
        #[trigger] after[i],
    ) by {
        assert(after[i] == f[i]);
        s.lemma_filter_pred(k, i);
    }
}

/// Recording a file leaves the records of every other file as they were.
pub proof fn law_record_keeps_others(
    s: Seq<LinkedView>,
    e: LinkedView,
    project: Seq<char>,
    file: Seq<char>,
)
    requires
        !(project == e.project && file == e.file),
    ensures
        s.filter(other_key(e.project, e.file)).push(e).filter(same_key(project, file)) == s.filter(
            same_key(project, file),
        ),
{
    let k = other_key(e.project, e.file);
    let q = same_key(project, file);
    lemma_filter_push(s.filter(k), e, q);
    lemma_filter_and(s, k, q);
    assert((|x: LinkedView| k(x) && q(x)) =~= q);
}

/// Recording a file twice keeps only the second record.
pub proof fn law_record_replaces(s: Seq<LinkedView>, e1: LinkedView, e2: LinkedView)
    requires
        e1.project == e2.project,
        e1.file == e2.file,
    ensures
        s.filter(other_key(e1.project, e1.file)).push(e1).filter(other_key(e2.project, e2.file)).push(
            e2,
        ) == s.filter(other_key(e2.project, e2.file)).push(e2),
{
    law_forget_after_record(s, e1);
}

/// Whether every file has at most one record.
pub open spec fn files_unique(s: Seq<LinkedView>) -> bool {
    forall|p: Seq<char>, f: Seq<char>| #[trigger] s.filter(same_key(p, f)).len() <= 1
}

proof fn lemma_filter_none<A>(s: Seq<A>, p: spec_fn(A) -> bool)
    requires
        forall|i: int| 0 <= i < s.len() ==> !p(#[trigger] s[i]),
    ensures
        s.filter(p) == Seq::<A>::empty(),
    decreases s.len(),
{
    reveal(Seq::filter);
    if s.len() > 0 {
        lemma_filter_none(s.drop_last(), p);
    }
}

/// Recording a file keeps every file recorded at most once.
pub proof fn law_record_keeps_files_unique(s: Seq<LinkedView>, e: LinkedView)
    requires
        files_unique(s),
    ensures
        files_unique(s.filter(other_key(e.project, e.file)).push(e)),
{
    let k = other_key(e.project, e.file);
    let after = s.filter(k).push(e);
    assert forall|p: Seq<char>, f: Seq<char>| #[trigger] after.filter(same_key(p, f)).len() <= 1 by {
        if p == e.project && f == e.file {
            let q = same_key(p, f);
            lemma_filter_push(s.filter(k), e, q);
            lemma_filter_and(s, k, q);
            lemma_filter_none(s, |x: LinkedView| k(x) && q(x));
        } else {
            law_record_keeps_others(s, e, p, f);
        }
    }
}

/// Forgetting a file keeps every file recorded at most once.
pub proof fn law_forget_keeps_files_unique(s: Seq<LinkedView>, project: Seq<char>, file: Seq<char>)
    requires
        files_unique(s),
    ensures
        files_unique(s.filter(other_key(project, file))),
{
    let k = other_key(project, file);
    assert forall|p: Seq<char>, f: Seq<char>| #[trigger] s.filter(k).filter(same_key(p, f)).len() <= 1 by {
        let q = same_key(p, f);
        lemma_filter_and(s, k, q);
        if p == project && f == file {
            lemma_filter_none(s, |x: LinkedView| k(x) && q(x));
        } else {
            assert((|x: LinkedView| k(x) && q(x)) =~= q);
        }
    }
}

/// Whether no two projects carry the same name.
pub open spec fn names_unique(ps: Seq<ProjectView>) -> bool {
    forall|i: int, j: int| 0 <= i < j < ps.len() ==> #[trigger] ps[i].name != #[trigger] ps[j].name
}

proof fn lemma_add_keeps_names(ps: Seq<ProjectView>, name: Seq<char>, q: ProjectView)
    requires
        names_unique(ps),
        q.name == name,
    ensures
        first_where(ps, named(name)) matches Some(i) ==> names_unique(ps.update(i, q)),
        first_where(ps, named(name)) is None ==> names_unique(ps.push(q)),
{
    lemma_first_from(ps, named(name), 0);
    match first_where(ps, named(name)) {
        Some(i) => {
            let u = ps.update(i, q);
            assert forall|a: int, b: int| 0 <= a < b < u.len() implies #[trigger] u[a].name
                != #[trigger] u[b].name by {
                assert(ps[a].name != ps[b].name);
            }
        },
        None => {
            let u = ps.push(q);
            assert forall|a: int, b: int| 0 <= a < b < u.len() implies #[trigger] u[a].name
                != #[trigger] u[b].name by {
                if b == ps.len() {
                    assert(!named(name)(ps[a]));
                } else {
                    assert(ps[a].name != ps[b].name);
                }
            }
        },
    }
}

/// Adding files keeps project names unique.
pub proof fn law_add_files_keeps_names_unique(
    ps: Seq<ProjectView>,
    name: Seq<char>,
    files: Seq<Seq<char>>,
    remote: Option<Seq<char>>,
)
    requires
        names_unique(ps),
    ensures
        names_unique(spec_add_files(ps, name, files, remote)),
{
    lemma_first_from(ps, named(name), 0);
    match first_where(ps, named(name)) {
        Some(i) => {
            let p = ps[i];
            lemma_add_keeps_names(
                ps,
                name,
                ProjectView {
                    files: merge_new(p.files, files),
                    match_remote: if p.match_remote is None {
                        remote
                    } else {
                        p.match_remote
                    },
                    ..p
                },
            );
        },
        None => {
            lemma_add_keeps_names(
                ps,
                name,
                ProjectView { name, match_remote: remote, match_path: None, files, ignored: seq![] },
            );
        },
    }
}

/// Ignoring files keeps project names unique.
pub proof fn law_add_ignored_keeps_names_unique(
    ps: Seq<ProjectView>,
    name: Seq<char>,
    files: Seq<Seq<char>>,
    remote: Option<Seq<char>>,
)
    requires
        names_unique(ps),
    ensures
        names_unique(spec_add_ignored(ps, name, files, remote)),
{
    lemma_first_from(ps, named(name), 0);
    match first_where(ps, named(name)) {
        Some(i) => {
            let p = ps[i];
            lemma_add_keeps_names(ps, name, ProjectView { ignored: merge_new(p.ignored, files), ..p });
        },
        None => {
            lemma_add_keeps_names(
                ps,
                name,
                ProjectView { name, match_remote: remote, match_path: None, files: seq![], ignored: files },
            );
        },
    }
}

proof fn lemma_filter_keeps_names_unique(ps: Seq<ProjectView>, f: spec_fn(ProjectView) -> bool)
    requires
        names_unique(ps),
    ensures
        names_unique(ps.filter(f)),
    decreases ps.len(),
{
    broadcast use vstd::seq_lib::group_filter_ensures;

    reveal(Seq::filter);
    if ps.len() > 0 {
        let d = ps.drop_last();
        assert(names_unique(d)) by {
            assert forall|a: int, b: int| 0 <= a < b < d.len() implies #[trigger] d[a].name
                != #[trigger] d[b].name by {
                assert(ps[a].name != ps[b].name);
            }
        }
        lemma_filter_keeps_names_unique(d, f);
        let r = d.filter(f);
        if f(ps.last()) {
            let u = r.push(ps.last());
            assert forall|a: int, b: int| 0 <= a < b < u.len() implies #[trigger] u[a].name
                != #[trigger] u[b].name by {
                if b == r.len() {
                    assert(r.contains(r[a]));
                    d.lemma_filter_contains_rev(f, r[a]);
                    let c = choose|c: int| 0 <= c < d.len() && d[c] == r[a];
                    assert(ps[c].name != ps[ps.len() - 1].name);
                }
            }
        }
    }
}

/// Removing files keeps project names unique.
pub proof fn law_remove_keeps_names_unique(ps: Seq<ProjectView>, name: Seq<char>, files: Seq<Seq<char>>)
    requires
        names_unique(ps),
        first_where(ps, named(name)) is Some,
    ensures
        names_unique(spec_remove_files(ps, name, files)),
{
    lemma_first_from(ps, named(name), 0);
    let i = first_where(ps, named(name))->Some_0;
    let u = ps.update(i, pruned(ps[i], files));
    assert forall|a: int, b: int| 0 <= a < b < u.len() implies #[trigger] u[a].name != #[trigger] u[b].name by {
        assert(ps[a].name != ps[b].name);
    }
    lemma_filter_keeps_names_unique(u, not_named(name));
}


/// Every element of `merge_new(xs, ys)` comes from `xs` or from `ys`.
pub proof fn lemma_merge_within(xs: Seq<Seq<char>>, ys: Seq<Seq<char>>)
    ensures
        forall|k: int|
            0 <= k < merge_new(xs, ys).len() ==> xs.contains(#[trigger] merge_new(xs, ys)[k])
                || ys.contains(merge_new(xs, ys)[k]),
    decreases ys.len(),
{
    if ys.len() > 0 {
        let m = merge_new(xs, ys.drop_last());
        lemma_merge_within(xs, ys.drop_last());
        let r = merge_new(xs, ys);
        assert forall|k: int| 0 <= k < r.len() implies xs.contains(#[trigger] r[k]) || ys.contains(
            r[k],
        ) by {
            if k < m.len() {
                assert(r[k] == m[k]);
                if ys.drop_last().contains(m[k]) {
                    let j = choose|j: int| 0 <= j < ys.drop_last().len() && ys.drop_last()[j] == m[k];
                    assert(ys[j] == m[k]);
                }
            } else {
                assert(r[k] == ys[ys.len() - 1]);
            }
        }
    }
}

/// What a list becomes when files are merged into it: it keeps every
/// entry it had, holds every merged file, and holds nothing else.
pub open spec fn merged_into(before: Seq<Seq<char>>, added: Seq<Seq<char>>, after: Seq<Seq<char>>) -> bool {
    &&& forall|j: int| 0 <= j < before.len() ==> after.contains(#[trigger] before[j])
    &&& forall|j: int| 0 <= j < added.len() ==> after.contains(#[trigger] added[j])
    &&& forall|k: int| 0 <= k < after.len() ==> before.contains(#[trigger] after[k]) || added.contains(after[k])
}

proof fn lemma_merge_merged_into(xs: Seq<Seq<char>>, ys: Seq<Seq<char>>)
    ensures
        merged_into(xs, ys, merge_new(xs, ys)),
{
    lemma_merge_contains(xs, ys);
    lemma_merge_within(xs, ys);
}

/// `ignore` for a name no project carries appends one new project of that
/// name: it matches by the given remote, stores no file, and ignores
/// exactly the given files; the other projects stay as they were.
pub proof fn law_add_ignored_new_project(
    ps: Seq<ProjectView>,
    name: Seq<char>,
    files: Seq<Seq<char>>,
    remote: Option<Seq<char>>,
)
    requires
        forall|k: int| 0 <= k < ps.len() ==> (#[trigger] ps[k]).name != name,
    ensures
        spec_add_ignored(ps, name, files, remote) == ps.push(
            ProjectView { name, match_remote: remote, match_path: None, files: seq![], ignored: files },
        ),
{
    lemma_first_from(ps, named(name), 0);
    assert(first_where(ps, named(name)) is None) by {
        if first_where(ps, named(name)) is Some {
            let k = first_where(ps, named(name))->Some_0;
            assert(named(name)(ps[k]));
        }
    }
}

/// `ignore` for the project `name` changes only the first project of that
/// name, and of it only its ignored files: they keep what they held and
/// gain the given files; its name, remote, path and stored files stay.
pub proof fn law_add_ignored_existing(
    ps: Seq<ProjectView>,
    name: Seq<char>,
    files: Seq<Seq<char>>,
    remote: Option<Seq<char>>,
    i: int,
)
    requires
        0 <= i < ps.len(),
        ps[i].name == name,
        forall|k: int| 0 <= k < i ==> (#[trigger] ps[k]).name != name,
    ensures
        ({
            let r = spec_add_ignored(ps, name, files, remote);
            &&& r.len() == ps.len()
            &&& forall|k: int| 0 <= k < ps.len() && k != i ==> #[trigger] r[k] == ps[k]
            &&& r[i].name == ps[i].name
            &&& r[i].match_remote == ps[i].match_remote
            &&& r[i].match_path == ps[i].match_path
            &&& r[i].files == ps[i].files
            &&& merged_into(ps[i].ignored, files, r[i].ignored)
        }),
{
    assert forall|k: int| 0 <= k < i implies !named(name)(#[trigger] ps[k]) by {}
    lemma_first_from_skip(ps, named(name), i);
    lemma_merge_merged_into(ps[i].ignored, files);
}

/// `add` for a name no project carries appends one new project of that
/// name: it matches by the given remote and stores exactly the given files.
pub proof fn law_add_files_new_project(
    ps: Seq<ProjectView>,
    name: Seq<char>,
    files: Seq<Seq<char>>,
    remote: Option<Seq<char>>,
)
    requires
        forall|k: int| 0 <= k < ps.len() ==> (#[trigger] ps[k]).name != name,
    ensures
        spec_add_files(ps, name, files, remote) == ps.push(
            ProjectView { name, match_remote: remote, match_path: None, files, ignored: seq![] },
        ),
{
    lemma_first_from(ps, named(name), 0);
    assert(first_where(ps, named(name)) is None) by {
        if first_where(ps, named(name)) is Some {
            let k = first_where(ps, named(name))->Some_0;
            assert(named(name)(ps[k]));
        }
    }
}

/// `add` for the project `name` changes only the first project of that
/// name: its stored files keep what they held and gain the given files; it
/// takes the given remote only when it had none; its name, path and ignored
/// files stay.
pub proof fn law_add_files_existing(
    ps: Seq<ProjectView>,
    name: Seq<char>,
    files: Seq<Seq<char>>,
    remote: Option<Seq<char>>,
    i: int,
)
    requires
        0 <= i < ps.len(),
        ps[i].name == name,
        forall|k: int| 0 <= k < i ==> (#[trigger] ps[k]).name != name,
    ensures
        ({
            let r = spec_add_files(ps, name, files, remote);
            &&& r.len() == ps.len()
            &&& forall|k: int| 0 <= k < ps.len() && k != i ==> #[trigger] r[k] == ps[k]
            &&& r[i].name == ps[i].name
            &&& (ps[i].match_remote is Some ==> r[i].match_remote == ps[i].match_remote)
            &&& (ps[i].match_remote is None ==> r[i].match_remote == remote)
            &&& r[i].match_path == ps[i].match_path
            &&& r[i].ignored == ps[i].ignored
            &&& merged_into(ps[i].files, files, r[i].files)
        }),
{
    assert forall|k: int| 0 <= k < i implies !named(name)(#[trigger] ps[k]) by {}
    lemma_first_from_skip(ps, named(name), i);
    lemma_merge_merged_into(ps[i].files, files);
}

/// `remove` that takes every stored file out of the project `name` drops
/// that project: no project of that name is left, and every other project
/// stays, in order.
pub proof fn law_remove_last_files_drops_project(
    ps: Seq<ProjectView>,
    name: Seq<char>,
    files: Seq<Seq<char>>,
    i: int,
)
    requires
        0 <= i < ps.len(),
        ps[i].name == name,
        forall|k: int| 0 <= k < i ==> (#[trigger] ps[k]).name != name,
        forall|j: int| 0 <= j < ps[i].files.len() ==> files.contains(#[trigger] ps[i].files[j]),
    ensures
        ({
            let r = spec_remove_files(ps, name, files);
            &&& forall|k: int| 0 <= k < r.len() ==> (#[trigger] r[k]).name != name
            &&& r == ps.filter(not_named(name))
        }),
{
    broadcast use vstd::seq_lib::group_filter_ensures;

    assert forall|k: int| 0 <= k < i implies !named(name)(#[trigger] ps[k]) by {}
    lemma_first_from_skip(ps, named(name), i);
    let p = pruned(ps[i], files);
    assert(p.files.len() == 0) by {
        if p.files.len() > 0 {
            ps[i].files.lemma_filter_pred(not_in(files), 0);
            assert(p.files.contains(p.files[0]));
            ps[i].files.lemma_filter_contains_rev(not_in(files), p.files[0]);
        }
    }
    let u = ps.update(i, p);
    let r = u.filter(not_named(name));
    assert forall|k: int| 0 <= k < r.len() implies (#[trigger] r[k]).name != name by {
        u.lemma_filter_pred(not_named(name), k);
    }
    lemma_filter_update_named(ps, name, i, p);
}

proof fn lemma_filter_update_named(ps: Seq<ProjectView>, name: Seq<char>, i: int, p: ProjectView)
    requires
        0 <= i < ps.len(),
        ps[i].name == name,
        p.name == name,
    ensures
        ps.update(i, p).filter(not_named(name)) == ps.filter(not_named(name)),
    decreases ps.len(),
{
    reveal(Seq::filter);
    let u = ps.update(i, p);
    if i == ps.len() - 1 {
        assert(u.drop_last() =~= ps.drop_last());
    } else {
        lemma_filter_update_named(ps.drop_last(), name, i, p);
        assert(u.drop_last() =~= ps.drop_last().update(i, p));
        assert(u.last() == ps.last());
    }
}

/// `remove` that leaves some stored file in the project `name` keeps every
/// project where it was: the first of that name loses the given files from
/// its stored and ignored files and keeps its name, remote and path.
pub proof fn law_remove_some_files_keeps_project(
    ps: Seq<ProjectView>,
    name: Seq<char>,
    files: Seq<Seq<char>>,
    i: int,
)
    requires
        0 <= i < ps.len(),
        ps[i].name == name,
        forall|k: int| 0 <= k < i ==> (#[trigger] ps[k]).name != name,
        exists|j: int| 0 <= j < ps[i].files.len() && !files.contains(#[trigger] ps[i].files[j]),
    ensures
        ({
            let r = spec_remove_files(ps, name, files);
            &&& r.len() == ps.len()
            &&& forall|k: int| 0 <= k < ps.len() && k != i ==> #[trigger] r[k] == ps[k]
            &&& r[i].name == name
            &&& r[i].match_remote == ps[i].match_remote
            &&& r[i].match_path == ps[i].match_path
            &&& r[i].files.len() > 0
            &&& forall|f: Seq<char>| #[trigger] r[i].files.contains(f) <==> (ps[i].files.contains(f) && !files.contains(f))
            &&& forall|f: Seq<char>| #[trigger] r[i].ignored.contains(f) <==> (ps[i].ignored.contains(f) && !files.contains(f))
        }),
{
    broadcast use vstd::seq_lib::group_filter_ensures;

    assert forall|k: int| 0 <= k < i implies !named(name)(#[trigger] ps[k]) by {}
    lemma_first_from_skip(ps, named(name), i);
    let j = choose|j: int| 0 <= j < ps[i].files.len() && !files.contains(#[trigger] ps[i].files[j]);
    ps[i].files.lemma_filter_contains(not_in(files), j);
    let p = pruned(ps[i], files);
    assert forall|f: Seq<char>| #[trigger] p.files.contains(f) <==> (ps[i].files.contains(f) && !files.contains(f)) by {
        if ps[i].files.contains(f) && !files.contains(f) {
            let q = choose|q: int| 0 <= q < ps[i].files.len() && ps[i].files[q] == f;
            ps[i].files.lemma_filter_contains(not_in(files), q);
        }
        if p.files.contains(f) {
            ps[i].files.lemma_filter_contains_rev(not_in(files), f);
        }
    }
    assert forall|f: Seq<char>| #[trigger] p.ignored.contains(f) <==> (ps[i].ignored.contains(f) && !files.contains(f)) by {
        if ps[i].ignored.contains(f) && !files.contains(f) {
            let q = choose|q: int| 0 <= q < ps[i].ignored.len() && ps[i].ignored[q] == f;
            ps[i].ignored.lemma_filter_contains(not_in(files), q);
        }
        if p.ignored.contains(f) {
            ps[i].ignored.lemma_filter_contains_rev(not_in(files), f);
        }
    }
}


/// What `remove` leaves of the project `name`, read off its outcome.
proof fn lemma_remove_outcome(ps: Seq<ProjectView>, name: Seq<char>, files: Seq<Seq<char>>)
    requires
        first_where(ps, named(name)) is Some,
    ensures
        ({
            let i = first_where(ps, named(name))->Some_0;
            let r = spec_remove_files(ps, name, files);
            &&& pruned(ps[i], files).files.len() == 0 ==> forall|k: int|
                0 <= k < r.len() ==> (#[trigger] r[k]).name != name
            &&& pruned(ps[i], files).files.len() > 0 ==> (r.len() == ps.len() && 0 <= i < r.len()
                && r[i].name == name && r[i].files.len() > 0)
        }),
{
    broadcast use vstd::seq_lib::group_filter_ensures;

    lemma_first_from(ps, named(name), 0);
    let i = first_where(ps, named(name))->Some_0;
    let fs = ps[i].files;
    let kept = fs.filter(not_in(files));
    if kept.len() == 0 {
        assert forall|j: int| 0 <= j < fs.len() implies files.contains(#[trigger] fs[j]) by {
            if !files.contains(fs[j]) {
                fs.lemma_filter_contains(not_in(files), j);
            }
        }
        law_remove_last_files_drops_project(ps, name, files, i);
    } else {
        assert(kept.contains(kept[0]));
        fs.lemma_filter_contains_rev(not_in(files), kept[0]);
        let j = choose|j: int| 0 <= j < fs.len() && fs[j] == kept[0];
        assert(!files.contains(fs[j]));
        law_remove_some_files_keeps_project(ps, name, files, i);
    }
}

} // verus!
