//! The lines that `list` and `status` print.
use vstd::prelude::*;
use vstd::string::*;
use crate::text::{decimal, decimal_string, join_with, join_strings, trim, lines_of, trim_str, split_lines};
use crate::model::{Config, ProjectEntry, ProjectView, State, LinkedView, LinkedEntry, same_key, under};
use crate::paths::path_starts_with;

verus! {

/// The counts shown beside a project's name: its files, then its ignored
/// files, each only when there is one.
pub open spec fn project_details(p: ProjectView) -> Seq<Seq<char>> {
    (if p.files.len() > 0 {
        seq![decimal(p.files.len()) + " file(s)"@]
    } else {
        seq![]
    }) + (if p.ignored.len() > 0 {
        seq![decimal(p.ignored.len()) + " ignored"@]
    } else {
        seq![]
    })
}

/// The `list` line of a project: its name, with the counts in brackets
/// when there are any.
pub open spec fn project_line(p: ProjectView) -> Seq<char> {
    if project_details(p).len() == 0 {
        p.name
    } else {
        p.name + " ("@ + join_with(project_details(p), ", "@) + ")"@
    }
}

/// What `list` prints.
pub open spec fn list_output(ps: Seq<ProjectView>) -> Seq<Seq<char>> {
    if ps.len() == 0 {
        seq!["no projects"@]
    } else {
        ps.map_values(|p: ProjectView| project_line(p))
    }
}

/// The `list` line of a project.
pub fn project_line_of(p: &ProjectEntry) -> (r: String)
    ensures
        r@ == project_line(p@),
{
    let mut details: Vec<String> = Vec::new();
    let nf = p.files.len();
    let ni = p.ignored.len();
    assert(p@.files.len() == nf);
    assert(p@.ignored.len() == ni);
    if nf > 0 {
        let s = decimal_string(nf).concat(" file(s)");
        details.push(s);
    }
    let ghost first = details.deep_view();
    if ni > 0 {
        let s = decimal_string(ni).concat(" ignored");
        details.push(s);
        assert(details.deep_view() =~= first.push(s@));
    }
    assert(details.deep_view() =~= project_details(p@));
    if details.len() == 0 {
        return p.name.clone();
    }
    let mut out = p.name.clone();
    out.append(" (");
    let joined = join_strings(&details, ", ");
    out.append(joined.as_str());
    out.append(")");
    out
}

/// What `list` prints, one line each.
pub fn list_lines(config: &Config) -> (r: Vec<String>)
    ensures
        r.deep_view() == list_output(config@),
{
    let mut out: Vec<String> = Vec::new();
    if config.project.len() == 0 {
        out.push(String::from_str("no projects"));
        assert(out.deep_view() =~= list_output(config@));
        return out;
    }
    let mut i: usize = 0;
    while i < config.project.len()
        invariant
            i <= config.project.len(),
            out.deep_view() =~= config@.take(i as int).map_values(|p: ProjectView| project_line(p)),
        decreases config.project.len() - i,
    {
        let line = project_line_of(&config.project[i]);
        let ghost prev = out.deep_view();
        out.push(line);
        assert(out.deep_view() =~= prev.push(line@));
        assert(config@.take(i + 1) =~= config@.take(i as int).push(config@[i as int]));
        i = i + 1;
    }
    assert(config@.take(config.project.len() as int) =~= config@);
    out
}

/// Whether `file` of `project` is recorded as linked under `dir`.
pub open spec fn linked_under(s: Seq<LinkedView>, project: Seq<char>, file: Seq<char>, dir: Seq<char>) -> bool {
    exists|i: int| 0 <= i < s.len() && same_key(project, file)(#[trigger] s[i]) && under(dir)(s[i])
}

/// Whether `file` of `project` is recorded as ignored.
pub open spec fn ignored_in(s: Seq<LinkedView>, project: Seq<char>, file: Seq<char>) -> bool {
    exists|i: int| 0 <= i < s.len() && same_key(project, file)(#[trigger] s[i]) && s[i].ignored
}

/// The `status` line of a file of the project.
pub open spec fn file_status_line(file: Seq<char>, is_symlink: bool, linked: bool) -> Seq<char> {
    "  "@ + file + " "@ + (if is_symlink {
        "→"@
    } else {
        "✗"@
    }) + " "@ + (if linked {
        "linked"@
    } else {
        "not linked"@
    })
}

/// The `status` line of an ignored file of the project.
pub open spec fn ignored_status_line(file: Seq<char>, ignored: bool) -> Seq<char> {
    "  "@ + file + " ✗ "@ + (if ignored {
        "ignored"@
    } else {
        "not ignored"@
    })
}

/// `true` or `false`.
pub open spec fn bool_text(b: bool) -> Seq<char> {
    if b {
        "true"@
    } else {
        "false"@
    }
}

/// The `status` line of a record under the current directory.
pub open spec fn entry_status_line(e: LinkedView) -> Seq<char> {
    "  "@ + e.file + " (project: "@ + e.project + ", skip-worktree: "@ + bool_text(e.skip_worktree)
        + ", "@ + (if e.ignored {
        "ignored"@
    } else {
        "linked"@
    }) + ")"@
}

/// What `status` prints about the matched project (or its absence):
/// `symlinks[i]` says whether the `i`-th file's target is a symlink.
pub open spec fn project_status(
    p: Option<ProjectView>,
    s: Seq<LinkedView>,
    cwd: Seq<char>,
    symlinks: Seq<bool>,
) -> Seq<Seq<char>> {
    match p {
        Some(p) => seq!["project: "@ + p.name] + Seq::new(
            p.files.len(),
            |i: int|
                file_status_line(
                    p.files[i],
                    i < symlinks.len() && symlinks[i],
                    linked_under(s, p.name, p.files[i], cwd),
                ),
        ) + Seq::new(
            p.ignored.len(),
            |i: int| ignored_status_line(p.ignored[i], ignored_in(s, p.name, p.ignored[i])),
        ),
        None => seq!["no project matches current directory"@],
    }
}

/// What `status` prints about the records under the current directory.
pub open spec fn local_status(s: Seq<LinkedView>, cwd: Seq<char>) -> Seq<Seq<char>> {
    let es = s.filter(under(cwd));
    if es.len() == 0 {
        seq![]
    } else {
        seq![""@, "linked files in this directory:"@] + es.map_values(
            |e: LinkedView| entry_status_line(e),
        )
    }
}

fn bool_str(b: bool) -> (r: &'static str)
    ensures
        r@ == bool_text(b),
{
    if b {
        "true"
    } else {
        "false"
    }
}

fn file_line(file: &String, is_symlink: bool, linked: bool) -> (r: String)
    ensures
        r@ == file_status_line(file@, is_symlink, linked),
{
    let mut out = String::from_str("  ");
    out.append(file.as_str());
    out.append(" ");
    out.append(
        if is_symlink {
            "→"
        } else {
            "✗"
        },
    );
    out.append(" ");
    out.append(
        if linked {
            "linked"
        } else {
            "not linked"
        },
    );
    out
}

fn ignored_line(file: &String, ignored: bool) -> (r: String)
    ensures
        r@ == ignored_status_line(file@, ignored),
{
    let mut out = String::from_str("  ");
    out.append(file.as_str());
    out.append(" ✗ ");
    out.append(
        if ignored {
            "ignored"
        } else {
            "not ignored"
        },
    );
    out
}

fn entry_line(e: &LinkedEntry) -> (r: String)
    ensures
        r@ == entry_status_line(e@),
{
    let mut out = String::from_str("  ");
    out.append(e.file.as_str());
    out.append(" (project: ");
    out.append(e.project.as_str());
    out.append(", skip-worktree: ");
    out.append(bool_str(e.skip_worktree));
    out.append(", ");
    out.append(
        if e.ignored {
            "ignored"
        } else {
            "linked"
        },
    );
    out.append(")");
    out
}

/// What `status` prints: the matched project's files and ignored files
/// (or that none matched), then the records under `cwd`. `symlinks[i]` says
/// whether the target of the project's `i`-th file is a symlink.
pub fn status_lines(project: Option<&ProjectEntry>, state: &State, cwd: &str, symlinks: &Vec<bool>) -> (r: Vec<String>)
    ensures
        r.deep_view() == project_status(
            match project {
                Some(p) => Some(p@),
                None => None,
            },
            state@,
            cwd@,
            symlinks@,
        ) + local_status(state@, cwd@),
        ({
            let n0 = project_status(
                match project {
                    Some(p) => Some(p@),
                    None => None,
                },
                state@,
                cwd@,
                symlinks@,
            ).len();
            let es = state@.filter(under(cwd@));
            &&& es.len() == 0 ==> r.len() == n0
            &&& es.len() > 0 ==> r.len() == n0 + 2 + es.len()
            &&& forall|j: int|
                0 <= j < es.len() ==> r.deep_view()[n0 + 2 + j] == entry_status_line(#[trigger] es[j])
                    && path_starts_with(es[j].target, cwd@)
        }),
{
    let mut out: Vec<String> = Vec::new();
    let ghost pv = match project {
        Some(p) => Some(p@),
        None => None,
    };
    match project {
        None => {
            out.push(String::from_str("no project matches current directory"));
        },
        Some(p) => {
            let mut head = String::from_str("project: ");
            head.append(p.name.as_str());
            out.push(head);
            let nf = p.files.len();
            let mut i: usize = 0;
            while i < nf
                invariant
                    nf == p.files.len(),
                    i <= nf,
                    out.deep_view() =~= seq!["project: "@ + p@.name] + Seq::new(
                        i as nat,
                        |k: int|
                            file_status_line(
                                p@.files[k],
                                k < symlinks@.len() && symlinks@[k],
                                linked_under(state@, p@.name, p@.files[k], cwd@),
                            ),
                    ),
                decreases nf - i,
            {
                let is_link = i < symlinks.len() && symlinks[i];
                let linked = state.is_linked_under(p.name.as_str(), p.files[i].as_str(), cwd);
                let line = file_line(&p.files[i], is_link, linked);
                let ghost prev = out.deep_view();
                out.push(line);
                assert(out.deep_view() =~= prev.push(line@));
                i = i + 1;
            }
            let ghost mid = out.deep_view();
            let ni = p.ignored.len();
            let mut j: usize = 0;
            while j < ni
                invariant
                    ni == p.ignored.len(),
                    j <= ni,
                    out.deep_view() =~= mid + Seq::new(
                        j as nat,
                        |k: int| ignored_status_line(p@.ignored[k], ignored_in(state@, p@.name, p@.ignored[k])),
                    ),
                decreases ni - j,
            {
                let ign = state.is_ignored(p.name.as_str(), p.ignored[j].as_str());
                let line = ignored_line(&p.ignored[j], ign);
                let ghost prev = out.deep_view();
                out.push(line);
                assert(out.deep_view() =~= prev.push(line@));
                j = j + 1;
            }
        },
    }
    let ghost head_part = out.deep_view();
    assert(head_part =~= project_status(pv, state@, cwd@, symlinks@));
    let local = state.entries_under(cwd);
    if local.len() > 0 {
        out.push(String::from_str(""));
        out.push(String::from_str("linked files in this directory:"));
        let ghost top = out.deep_view();
        let mut k: usize = 0;
        while k < local.len()
            invariant
                k <= local.len(),
                out.deep_view() =~= top + local@.take(k as int).map_values(|e: LinkedEntry| entry_status_line(e@)),
            decreases local.len() - k,
        {
            let line = entry_line(&local[k]);
            let ghost prev = out.deep_view();
            out.push(line);
            assert(out.deep_view() =~= prev.push(line@));
            assert(local@.take(k + 1) =~= local@.take(k as int).push(local@[k as int]));
            k = k + 1;
        }
        assert(local@.take(local.len() as int) =~= local@);
        assert(local@.map_values(|e: LinkedEntry| entry_status_line(e@)) =~= state@.filter(under(cwd@)).map_values(
            |e: LinkedView| entry_status_line(e),
        ));
    } else {
        assert(local@.map_values(|e: LinkedEntry| e@).len() == 0);
    }
    assert(out.deep_view() =~= head_part + local_status(state@, cwd@));
    proof {
        law_status_lists_records_under_cwd(state@, cwd@);
        let es = state@.filter(under(cwd@));
        assert forall|j: int| 0 <= j < es.len() implies out.deep_view()[head_part.len() + 2 + j]
            == entry_status_line(#[trigger] es[j]) && path_starts_with(es[j].target, cwd@) by {
            assert(out.deep_view()[head_part.len() + 2 + j] == local_status(state@, cwd@)[j + 2]);
        }
    }
    out
}

/// A line indented by two spaces.
pub open spec fn indented() -> spec_fn(Seq<char>) -> Seq<char> {
    |l: Seq<char>| "  "@ + l
}

/// What `sync --dry-run` prints: the pull it would run (with a remote),
/// the changed files that `git diff --name-only` printed (or that there are
/// none) with the commit message, and the push it would run.
pub open spec fn dry_run_output(has_remote: bool, diff: Seq<char>, message: Seq<char>) -> Seq<Seq<char>> {
    let changed = trim(diff);
    (if has_remote {
        seq!["would run: git pull"@]
    } else {
        seq![]
    }) + (if changed.len() > 0 {
        seq!["would stage and commit the following files:"@] + lines_of(changed).map_values(
            indented(),
        ) + seq!["commit message: "@ + message]
    } else {
        seq!["no local changes to commit"@]
    }) + (if has_remote {
        seq!["would run: git push"@]
    } else {
        seq![]
    })
}

/// What `sync --dry-run` prints, given whether the store has a remote, what
/// `git diff --name-only` printed, and the commit message.
pub fn dry_run_lines(has_remote: bool, diff: &str, message: &str) -> (r: Vec<String>)
    ensures
        r.deep_view() == dry_run_output(has_remote, diff@, message@),
        r.deep_view().contains("would run: git push"@) <==> has_remote,
        r.deep_view().contains("would run: git pull"@) <==> has_remote,
{
    let mut out: Vec<String> = Vec::new();
    if has_remote {
        out.push(String::from_str("would run: git pull"));
    }
    let ghost first = out.deep_view();
    assert(first =~= (if has_remote {
        seq!["would run: git pull"@]
    } else {
        Seq::<Seq<char>>::empty()
    }));
    let changed = trim_str(diff);
    if changed.unicode_len() > 0 {
        out.push(String::from_str("would stage and commit the following files:"));
        let ghost head = out.deep_view();
        let lines = split_lines(changed);
        let mut i: usize = 0;
        while i < lines.len()
            invariant
                i <= lines.len(),
                lines.deep_view() == lines_of(changed@),
                out.deep_view() =~= head + lines.deep_view().take(i as int).map_values(
                    indented(),
                ),
            decreases lines.len() - i,
        {
            let mut line = String::from_str("  ");
            line.append(lines[i].as_str());
            let ghost prev = out.deep_view();
            out.push(line);
            assert(line@ == indented()(lines[i as int]@));
            assert(out.deep_view() =~= prev.push(line@));
            assert(lines.deep_view().take(i + 1) =~= lines.deep_view().take(i as int).push(
                lines[i as int]@,
            ));
            i = i + 1;
        }
        assert(lines.deep_view().take(lines.len() as int) =~= lines.deep_view());
        assert(out.deep_view() =~= head + lines_of(changed@).map_values(indented()));
        assert(head =~= first + seq!["would stage and commit the following files:"@]);
        let mut last = String::from_str("commit message: ");
        last.append(message);
        let ghost before = out.deep_view();
        let ghost hdr = seq!["would stage and commit the following files:"@];
        let ghost body = lines_of(trim(diff@)).map_values(indented());
        assert(before =~= first + hdr + body);
        assert(last@ == "commit message: "@ + message@);
        out.push(last);
        assert(out.deep_view() =~= before.push(last@));
        assert(out.deep_view() =~= first + (hdr + body + seq!["commit message: "@ + message@]));
        assert(out.deep_view() =~= first + (seq!["would stage and commit the following files:"@]
            + lines_of(trim(diff@)).map_values(indented()) + seq![
            "commit message: "@ + message@,
        ]));
    } else {
        out.push(String::from_str("no local changes to commit"));
        assert(out.deep_view() =~= first + seq!["no local changes to commit"@]);
    }
    let ghost mid = out.deep_view();
    if has_remote {
        out.push(String::from_str("would run: git push"));
    }
    assert(out.deep_view() =~= dry_run_output(has_remote, diff@, message@));
    proof {
        law_dry_run_push_pull(has_remote, diff@, message@);
    }
    out
}


/// The end of `status` lists the records under the current directory and
/// no other: nothing when no record's target lies under it; otherwise an
/// empty line, the header, and one line per record whose target lies under
/// it, in the order of the state. Every record whose target lies under it
/// is among those listed.
pub proof fn law_status_lists_records_under_cwd(s: Seq<LinkedView>, cwd: Seq<char>)
    ensures
        ({
            let out = local_status(s, cwd);
            let es = s.filter(under(cwd));
            &&& (forall|i: int| 0 <= i < s.len() ==> !path_starts_with(#[trigger] s[i].target, cwd))
                ==> out.len() == 0
            &&& es.len() > 0 ==> out.len() == es.len() + 2 && out[0] == ""@ && out[1]
                == "linked files in this directory:"@
            &&& es.len() > 0 ==> forall|j: int|
                0 <= j < es.len() ==> out[j + 2] == entry_status_line(#[trigger] es[j])
                    && path_starts_with(es[j].target, cwd) && s.contains(es[j])
            &&& forall|i: int|
                0 <= i < s.len() && path_starts_with(#[trigger] s[i].target, cwd) ==> es.contains(
                    s[i],
                )
        }),
{
    broadcast use vstd::seq_lib::group_filter_ensures;

    let es = s.filter(under(cwd));
    if forall|i: int| 0 <= i < s.len() ==> !path_starts_with(#[trigger] s[i].target, cwd) {
        if es.len() > 0 {
            assert(es.contains(es[0]));
            s.lemma_filter_contains_rev(under(cwd), es[0]);
        }
    }
    assert forall|j: int| 0 <= j < es.len() implies path_starts_with(#[trigger] es[j].target, cwd)
        && s.contains(es[j]) by {
        s.lemma_filter_pred(under(cwd), j);
        assert(es.contains(es[j]));
        s.lemma_filter_contains_rev(under(cwd), es[j]);
    }
    assert forall|i: int| 0 <= i < s.len() && path_starts_with(#[trigger] s[i].target, cwd)
        implies es.contains(s[i]) by {
        s.lemma_filter_contains(under(cwd), i);
    }
}

/// `sync --dry-run` announces a push, and a pull, exactly when the store has
/// a remote, whatever changed: the pull first and the push last.
pub proof fn law_dry_run_push_pull(has_remote: bool, diff: Seq<char>, message: Seq<char>)
    ensures
        ({
            let out = dry_run_output(has_remote, diff, message);
            &&& out.contains("would run: git push"@) <==> has_remote
            &&& out.contains("would run: git pull"@) <==> has_remote
            &&& has_remote ==> out[0] == "would run: git pull"@ && out.last()
                == "would run: git push"@
        }),
{
    reveal_strlit("would run: git push");
    reveal_strlit("would run: git pull");
    reveal_strlit("would stage and commit the following files:");
    reveal_strlit("commit message: ");
    reveal_strlit("no local changes to commit");
    reveal_strlit("  ");
    let push = "would run: git push"@;
    let pull = "would run: git pull"@;
    let changed = trim(diff);
    let body = lines_of(changed).map_values(indented());
    let mid = if changed.len() > 0 {
        seq!["would stage and commit the following files:"@] + body + seq!["commit message: "@ + message]
    } else {
        seq!["no local changes to commit"@]
    };
    assert(push[0] == 'w' && pull[0] == 'w' && push[6] == 'r' && push[18] == 'h' && pull[18] == 'l');
    assert forall|k: int| 0 <= k < mid.len() implies (#[trigger] mid[k]) != push && mid[k] != pull by {
        if changed.len() > 0 {
            if k == 0 {
                assert(mid[k][6] == 's');
            } else if k < 1 + body.len() {
                assert(mid[k] == indented()(lines_of(changed)[k - 1]));
                assert(mid[k][0] == ' ');
            } else {
                assert(mid[k] == "commit message: "@ + message);
                assert(mid[k][0] == 'c');
            }
        } else {
            assert(mid[k][0] == 'n');
        }
    }
    assert(push != pull);
    let front = if has_remote {
        seq![pull]
    } else {
        Seq::<Seq<char>>::empty()
    };
    let back = if has_remote {
        seq![push]
    } else {
        Seq::<Seq<char>>::empty()
    };
    let out = dry_run_output(has_remote, diff, message);
    assert(out =~= front + mid + back);
    if has_remote {
        assert(out[0] == pull);
        assert(out[out.len() - 1] == push);
        assert(out.contains(push));
        assert(out.contains(pull));
    } else {
        assert(out =~= mid);
        assert(!out.contains(push));
        assert(!out.contains(pull));
    }
}

} // verus!
