# privconf

A private config manager for project-specific files (`mise.local.toml`,
`.env`, scripts, ...). The files live in a store — a git repository of its
own at `~/.privconf` or `$PRIVCONF_DIR` — and are symlinked into project
directories, while git is kept from seeing them (`.git/info/exclude` for
untracked files, `git update-index --skip-worktree` for tracked ones).

## Layout

- `src/` — the library, verified with Verus:
  - `text.rs`: trimming, line splitting, joining, substring search, suffix
    stripping and decimal formatting on strings, each stated over `Seq<char>`;
  - `paths.rs`: Unix path components as `std::path` defines them (`join`,
    `file_name`, `parent`, `starts_with`), `~` expansion, and the backup path
    that sits beside a file;
  - `exclude.rs`: adding and removing entries of `info/exclude`, with the laws
    that relate the two;
  - `model.rs`: the config and the link state, their views, the changes that
    `add`, `ignore`, `remove`, `link` and `unlink` make, and their laws;
  - `matching.rs`: which project a directory belongs to (remote first, then
    path glob through the `glob` crate);
  - `store.rs`: where the store and its files are;
  - `plan.rs`: what each command does with the facts it gathered;
  - `report.rs`: the lines `list` and `status` print;
  - `error.rs`: the tool's errors and their messages.
- `tests/` — tests of the library on concrete values.
- `app/` — the command line: argument parsing, TOML files, the file system and
  git, and printing.
