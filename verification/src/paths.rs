//! Unix paths held as strings, with the component semantics of
//! `std::path::Path`: `join`, `file_name`, `parent`, `starts_with`, and the
//! backup path that sits beside a file.
use vstd::prelude::*;
use vstd::string::*;
use crate::text::str_eq;

verus! {

/// One component of a path, as `std::path::Component` names them on Unix.
pub enum Comp {
    Root,
    Cur,
    Parent,
    Normal(Seq<char>),
}

/// The index of the first `/` at or after `i`, or `s.len()` when there is
/// none.
pub open spec fn next_sep(s: Seq<char>, i: int) -> int
    decreases s.len() - i,
{
    if i < 0 || i >= s.len() {
        s.len() as int
    } else if s[i] == '/' {
        i
    } else {
        next_sep(s, i + 1)
    }
}

pub proof fn lemma_next_sep_bounds(s: Seq<char>, i: int)
    requires
        0 <= i <= s.len(),
    ensures
        i <= next_sep(s, i) <= s.len(),
        forall|j: int| i <= j < next_sep(s, i) ==> s[j] != '/',
        next_sep(s, i) < s.len() ==> s[next_sep(s, i)] == '/',
    decreases s.len() - i,
{
    if i < s.len() && s[i] != '/' {
        lemma_next_sep_bounds(s, i + 1);
    }
}

proof fn lemma_next_sep_is(s: Seq<char>, i: int, j: int)
    requires
        0 <= i <= j <= s.len(),
        forall|k: int| i <= k < j ==> s[k] != '/',
        j == s.len() || s[j] == '/',
    ensures
        next_sep(s, i) == j,
    decreases j - i,
{
    if i < j {
        lemma_next_sep_is(s, i + 1, j);
    }
}

/// Whether a segment between separators names a component (`""` and `"."`
/// name none).
pub open spec fn meaningful(seg: Seq<char>) -> bool {
    seg.len() > 0 && seg != seq!['.']
}

/// The spans `[start, end)` of the components in the body of `s` that
/// starts at `i`.
pub open spec fn spans_from(s: Seq<char>, i: int) -> Seq<(int, int)>
    decreases s.len() - i,
{
    if i < 0 || i > s.len() {
        seq![]
    } else {
        let j = next_sep(s, i);
        let head = if meaningful(s.subrange(i, j)) {
            seq![(i, j)]
        } else {
            seq![]
        };
        if j >= s.len() {
            head
        } else {
            proof {
                lemma_next_sep_bounds(s, i);
            }
            head + spans_from(s, j + 1)
        }
    }
}

/// Whether `s` begins with the root `/`.
pub open spec fn has_root(s: Seq<char>) -> bool {
    s.len() > 0 && s[0] == '/'
}

/// Whether `s` begins with a `.` component that is kept (`.` alone or `./`).
pub open spec fn has_cur(s: Seq<char>) -> bool {
    !has_root(s) && s.len() > 0 && s[0] == '.' && (s.len() == 1 || s[1] == '/')
}

/// The spans of all the components of `s`, in order.
pub open spec fn spans(s: Seq<char>) -> Seq<(int, int)> {
    if has_root(s) || has_cur(s) {
        seq![(0int, 1int)] + spans_from(s, 1)
    } else {
        spans_from(s, 0)
    }
}

/// The component of `s` at position `k` of its spans.
pub open spec fn comp_at(s: Seq<char>, k: int) -> Comp {
    if k == 0 && has_root(s) {
        Comp::Root
    } else if k == 0 && has_cur(s) {
        Comp::Cur
    } else {
        let seg = s.subrange(spans(s)[k].0, spans(s)[k].1);
        if seg == seq!['.', '.'] {
            Comp::Parent
        } else {
            Comp::Normal(seg)
        }
    }
}

/// The components of `s` (`Path::components`).
pub open spec fn comps(s: Seq<char>) -> Seq<Comp> {
    Seq::new(spans(s).len(), |k: int| comp_at(s, k))
}

/// The final component of `s` when it is a normal one (`Path::file_name`).
pub open spec fn file_name(s: Seq<char>) -> Option<Seq<char>> {
    let n = spans(s).len();
    if n > 0 && comp_at(s, n - 1) is Normal {
        Some(comp_at(s, n - 1)->Normal_0)
    } else {
        None
    }
}

/// The length of the prefix of `s` that `Path::parent` gives, or `None`
/// when `s` has no parent (it is empty, or its last component is the root).
pub open spec fn parent_len(s: Seq<char>) -> Option<int> {
    let n = spans(s).len();
    if n == 0 || comp_at(s, n - 1) is Root {
        None
    } else if n == 1 {
        Some(0)
    } else {
        Some(spans(s)[n - 2].1)
    }
}

/// `base` with `rel` pushed onto it (`Path::join`): an absolute `rel`
/// replaces `base`; otherwise a `/` goes between them when `base` is not
/// empty and does not already end with one.
pub open spec fn join(base: Seq<char>, rel: Seq<char>) -> Seq<char> {
    if rel.len() > 0 && rel[0] == '/' {
        rel
    } else if base.len() > 0 && base.last() != '/' {
        base + seq!['/'] + rel
    } else {
        base + rel
    }
}

/// The suffix that marks a backup.
pub open spec fn backup_suffix() -> Seq<char> {
    seq!['.', 'p', 'r', 'i', 'v', 'c', 'o', 'n', 'f', '.', 'b', 'a', 'k']
}

/// The name that a backup takes: the file name (or nothing) with
/// `.privconf.bak` after it.
pub open spec fn backup_name(s: Seq<char>) -> Seq<char> {
    (match file_name(s) {
        Some(n) => n,
        None => seq![],
    }) + backup_suffix()
}

/// Where the backup of `s` goes: beside it (under its parent, when it has
/// one), named `backup_name(s)`.
pub open spec fn backup_of(s: Seq<char>) -> Seq<char> {
    match parent_len(s) {
        Some(k) => join(s.take(k), backup_name(s)),
        None => backup_name(s),
    }
}

/// Whether the components of `base` are a prefix of those of `path`
/// (`Path::starts_with`).
pub open spec fn path_starts_with(path: Seq<char>, base: Seq<char>) -> bool {
    comps(base).len() <= comps(path).len() && comps(path).take(comps(base).len() as int) == comps(
        base,
    )
}

/// `p` with a leading `~` replaced by `home`, when `p` is `~` or starts with
/// `~/` and a home directory is known; otherwise `p` unchanged.
pub open spec fn expand_tilde(p: Seq<char>, home: Option<Seq<char>>) -> Seq<char> {
    if p.len() > 0 && p[0] == '~' && (p.len() == 1 || p[1] == '/') && home is Some {
        home->Some_0 + p.skip(1)
    } else {
        p
    }
}

/// Whether `s` begins with the root, and whether it begins with a kept `.`.
fn path_flags(s: &str) -> (r: (bool, bool))
    ensures
        r.0 == has_root(s@),
        r.1 == has_cur(s@),
{
    let n = s.unicode_len();
    let root = n > 0 && s.get_char(0) == '/';
    let cur = !root && n > 0 && s.get_char(0) == '.' && (n == 1 || s.get_char(1) == '/');
    (root, cur)
}

/// The starts and ends of the spans of the components of `s`.
fn component_spans(s: &str) -> (r: (Vec<usize>, Vec<usize>))
    ensures
        r.0@.len() == spans(s@).len(),
        r.1@.len() == spans(s@).len(),
        forall|k: int|
            0 <= k < spans(s@).len() ==> r.0@[k] == spans(s@)[k].0 && r.1@[k] == spans(s@)[k].1,
{
    let n = s.unicode_len();
    let mut starts: Vec<usize> = Vec::new();
    let mut ends: Vec<usize> = Vec::new();
    let ghost mut acc: Seq<(int, int)> = seq![];
    let (root, cur) = path_flags(s);
    let mut i: usize = 0;
    if root || cur {
        starts.push(0);
        ends.push(1);
        proof {
            acc = seq![(0int, 1int)];
        }
        i = 1;
    }
    assert(acc + spans_from(s@, i as int) =~= spans(s@));
    loop
        invariant_except_break
            acc + spans_from(s@, i as int) == spans(s@),
        invariant
            n == s@.len(),
            i <= n,
            starts@.len() == acc.len(),
            ends@.len() == acc.len(),
            forall|k: int| 0 <= k < acc.len() ==> starts@[k] == acc[k].0 && ends@[k] == acc[k].1,
        ensures
            starts@.len() == acc.len(),
            ends@.len() == acc.len(),
            forall|k: int| 0 <= k < acc.len() ==> starts@[k] == acc[k].0 && ends@[k] == acc[k].1,
            acc == spans(s@),
        decreases n - i,
    {
        let mut j = i;
        while j < n && s.get_char(j) != '/'
            invariant
                n == s@.len(),
                i <= j <= n,
                forall|k: int| i <= k < j ==> s@[k] != '/',
            decreases n - j,
        {
            j = j + 1;
        }
        proof {
            lemma_next_sep_is(s@, i as int, j as int);
        }
        let m = j > i && !(j == i + 1 && s.get_char(i) == '.');
        let ghost seg = s@.subrange(i as int, j as int);
        let ghost head = if meaningful(seg) {
            seq![(i as int, j as int)]
        } else {
            Seq::<(int, int)>::empty()
        };
        proof {
            if j == i + 1 && s@[i as int] == '.' {
                assert(seg =~= seq!['.']);
            }
            if seg == seq!['.'] {
                assert(seg[0] == s@[i as int]);
            }
            assert(m == meaningful(seg));
        }
        let ghost old_acc = acc;
        if m {
            starts.push(i);
            ends.push(j);
            proof {
                acc = acc.push((i as int, j as int));
            }
        }
        assert(acc =~= old_acc + head);
        if j >= n {
            assert(spans_from(s@, i as int) == head);
            break;
        }
        assert(spans_from(s@, i as int) == head + spans_from(s@, j + 1));
        assert(old_acc + (head + spans_from(s@, j + 1)) =~= acc + spans_from(s@, j + 1));
        i = j + 1;
    }
    (starts, ends)
}

/// Whether the segment of `s` in `[a, b)` is `..`.
fn is_dotdot(s: &str, a: usize, b: usize) -> (r: bool)
    requires
        a <= b <= s@.len(),
    ensures
        r == (s@.subrange(a as int, b as int) == seq!['.', '.']),
{
    if b - a == 2 && s.get_char(a) == '.' && s.get_char(a + 1) == '.' {
        assert(s@.subrange(a as int, b as int) =~= seq!['.', '.']);
        true
    } else {
        proof {
            let seg = s@.subrange(a as int, b as int);
            let dd = seq!['.', '.'];
            if seg == dd {
                assert(seg.len() == 2);
                assert(seg[0] == s@[a as int]);
                assert(seg[1] == s@[a + 1]);
                assert(dd[0] == '.' && dd[1] == '.');
            }
        }
        false
    }
}

pub proof fn lemma_spans_wf(s: Seq<char>, i: int)
    requires
        0 <= i <= s.len(),
    ensures
        forall|k: int|
            0 <= k < spans_from(s, i).len() ==> i <= #[trigger] spans_from(s, i)[k].0
                < spans_from(s, i)[k].1 <= s.len(),
    decreases s.len() - i,
{
    lemma_next_sep_bounds(s, i);
    let j = next_sep(s, i);
    let head = if meaningful(s.subrange(i, j)) {
        seq![(i, j)]
    } else {
        Seq::<(int, int)>::empty()
    };
    if j < s.len() {
        lemma_spans_wf(s, j + 1);
        let rest = spans_from(s, j + 1);
        assert(spans_from(s, i) == head + rest);
        assert forall|k: int| 0 <= k < spans_from(s, i).len() implies i <= #[trigger] spans_from(
            s,
            i,
        )[k].0 < spans_from(s, i)[k].1 <= s.len() by {
            if k >= head.len() {
                assert(spans_from(s, i)[k] == rest[k - head.len()]);
            }
        }
    } else {
        assert(spans_from(s, i) == head);
    }
}

pub proof fn lemma_all_spans_wf(s: Seq<char>)
    ensures
        forall|k: int|
            0 <= k < spans(s).len() ==> 0 <= #[trigger] spans(s)[k].0 < spans(s)[k].1 <= s.len(),
{
    if has_root(s) || has_cur(s) {
        lemma_spans_wf(s, 1);
        assert forall|k: int| 0 <= k < spans(s).len() implies 0 <= #[trigger] spans(s)[k].0
            < spans(s)[k].1 <= s.len() by {
            if k > 0 {
                assert(spans(s)[k] == spans_from(s, 1)[k - 1]);
            }
        }
    } else {
        lemma_spans_wf(s, 0);
    }
}

/// The final component of `s` when it is a normal one (`Path::file_name`).
pub fn path_file_name(s: &str) -> (r: Option<&str>)
    ensures
        match r {
            Some(x) => file_name(s@) == Some(x@),
            None => file_name(s@) is None,
        },
{
    let (starts, ends) = component_spans(s);
    let (root, cur) = path_flags(s);
    let n = starts.len();
    proof {
        lemma_all_spans_wf(s@);
    }
    if n == 0 {
        return None;
    }
    let k = n - 1;
    if k == 0 && (root || cur) {
        return None;
    }
    if is_dotdot(s, starts[k], ends[k]) {
        return None;
    }
    Some(s.substring_char(starts[k], ends[k]))
}

/// `base` with `rel` pushed onto it (`Path::join`).
pub fn path_join(base: &str, rel: &str) -> (r: String)
    ensures
        r@ == join(base@, rel@),
{
    let nb = base.unicode_len();
    let nr = rel.unicode_len();
    if nr > 0 && rel.get_char(0) == '/' {
        return String::from_str(rel);
    }
    let mut out = String::from_str(base);
    if nb > 0 && base.get_char(nb - 1) != '/' {
        proof {
            reveal_strlit("/");
        }
        out.append("/");
    }
    out.append(rel);
    out
}

/// Where the backup of `path` goes: beside it, under its file name with
/// `.privconf.bak` appended.
pub fn backup_path(path: &str) -> (r: String)
    ensures
        r@ == backup_of(path@),
{
    let (starts, ends) = component_spans(path);
    let (root, _cur) = path_flags(path);
    let n = starts.len();
    let mut name = match path_file_name(path) {
        Some(f) => String::from_str(f),
        None => String::new(),
    };
    proof {
        reveal_strlit(".privconf.bak");
    }
    name.append(".privconf.bak");
    assert(".privconf.bak"@ =~= backup_suffix());
    if n == 0 || (n == 1 && root) {
        return name;
    }
    let k = if n == 1 {
        0
    } else {
        ends[n - 2]
    };
    proof {
        lemma_all_spans_wf(path@);
    }
    path_join(path.substring_char(0, k), name.as_str())
}

/// 0 for a normal or parent component, 1 for the root, 2 for a kept `.`.
fn special_kind(root: bool, cur: bool, k: usize) -> (r: u8)
    ensures
        r == (if k == 0 && root {
            1u8
        } else if k == 0 && cur {
            2u8
        } else {
            0u8
        }),
{
    if k == 0 && root {
        1
    } else if k == 0 && cur {
        2
    } else {
        0
    }
}

/// Whether the components of `base` are a prefix of those of `path`
/// (`Path::starts_with`).
pub fn starts_with(path: &str, base: &str) -> (r: bool)
    ensures
        r == path_starts_with(path@, base@),
{
    let (ps, pe) = component_spans(path);
    let (bs, be) = component_spans(base);
    let (proot, pcur) = path_flags(path);
    let (broot, bcur) = path_flags(base);
    proof {
        lemma_all_spans_wf(path@);
        lemma_all_spans_wf(base@);
    }
    let np = ps.len();
    let nb = bs.len();
    if nb > np {
        return false;
    }
    let mut k: usize = 0;
    while k < nb
        invariant
            nb <= np,
            np == spans(path@).len(),
            nb == spans(base@).len(),
            ps@.len() == np,
            pe@.len() == np,
            bs@.len() == nb,
            be@.len() == nb,
            forall|j: int|
                0 <= j < np ==> ps@[j] == spans(path@)[j].0 && pe@[j] == spans(path@)[j].1,
            forall|j: int|
                0 <= j < nb ==> bs@[j] == spans(base@)[j].0 && be@[j] == spans(base@)[j].1,
            forall|j: int|
                0 <= j < spans(path@).len() ==> 0 <= #[trigger] spans(path@)[j].0 < spans(
                    path@,
                )[j].1 <= path@.len(),
            forall|j: int|
                0 <= j < spans(base@).len() ==> 0 <= #[trigger] spans(base@)[j].0 < spans(
                    base@,
                )[j].1 <= base@.len(),
            proot == has_root(path@),
            pcur == has_cur(path@),
            broot == has_root(base@),
            bcur == has_cur(base@),
            k <= nb,
            forall|j: int| 0 <= j < k ==> comp_at(path@, j) == comp_at(base@, j),
        decreases nb - k,
    {
        let kp = special_kind(proot, pcur, k);
        let kb = special_kind(broot, bcur, k);
        let same = if kp != kb {
            false
        } else if kp != 0 {
            true
        } else {
            str_eq(
                path.substring_char(ps[k], pe[k]),
                base.substring_char(bs[k], be[k]),
            )
        };
        if !same {
            assert(comp_at(path@, k as int) != comp_at(base@, k as int));
            assert(comps(path@).take(nb as int)[k as int] == comp_at(path@, k as int));
            assert(comps(base@)[k as int] == comp_at(base@, k as int));
            return false;
        }
        k = k + 1;
    }
    assert(comps(path@).take(nb as int) =~= comps(base@));
    true
}

/// `p` with a leading `~` replaced by `home` (the tilde expansion that
/// `shellexpand::tilde_with_context` performs).
pub fn expand_tilde_str(p: &str, home: Option<&str>) -> (r: String)
    ensures
        r@ == expand_tilde(
            p@,
            match home {
                Some(h) => Some(h@),
                None => None,
            },
        ),
{
    let n = p.unicode_len();
    if n > 0 && p.get_char(0) == '~' && (n == 1 || p.get_char(1) == '/') {
        if let Some(h) = home {
            let mut out = String::from_str(h);
            out.append(p.substring_char(1, n));
            assert(p@.subrange(1, n as int) =~= p@.skip(1));
            return out;
        }
    }
    String::from_str(p)
}

/// Whether `s` holds no `/`.
pub open spec fn no_sep(s: Seq<char>) -> bool {
    forall|t: int| 0 <= t < s.len() ==> s[t] != '/'
}

proof fn lemma_spans_from_no_sep(s: Seq<char>, i: int)
    requires
        0 <= i <= s.len(),
    ensures
        forall|k: int|
            0 <= k < spans_from(s, i).len() ==> no_sep(
                s.subrange(#[trigger] spans_from(s, i)[k].0, spans_from(s, i)[k].1),
            ),
    decreases s.len() - i,
{
    lemma_next_sep_bounds(s, i);
    lemma_spans_wf(s, i);
    let j = next_sep(s, i);
    let head = if meaningful(s.subrange(i, j)) {
        seq![(i, j)]
    } else {
        Seq::<(int, int)>::empty()
    };
    assert(no_sep(s.subrange(i, j))) by {
        assert forall|t: int| 0 <= t < j - i implies s.subrange(i, j)[t] != '/' by {
            assert(s.subrange(i, j)[t] == s[i + t]);
        }
    }
    if j < s.len() {
        lemma_spans_from_no_sep(s, j + 1);
        let rest = spans_from(s, j + 1);
        assert(spans_from(s, i) == head + rest);
        assert forall|k: int| 0 <= k < spans_from(s, i).len() implies no_sep(
            s.subrange(#[trigger] spans_from(s, i)[k].0, spans_from(s, i)[k].1),
        ) by {
            if k >= head.len() {
                assert(spans_from(s, i)[k] == rest[k - head.len()]);
            }
        }
    } else {
        assert(spans_from(s, i) == head);
    }
}

proof fn lemma_spans_from_append(p: Seq<char>, n: Seq<char>, i: int)
    requires
        p.len() == 0 || p.last() == '/',
        no_sep(n),
        0 <= i <= p.len(),
    ensures
        spans_from(p + n, i) == spans_from(p, i) + (if meaningful(n) {
            seq![(p.len() as int, (p.len() + n.len()) as int)]
        } else {
            Seq::<(int, int)>::empty()
        }),
    decreases p.len() - i,
{
    let b = p + n;
    let tail = if meaningful(n) {
        seq![(p.len() as int, (p.len() + n.len()) as int)]
    } else {
        Seq::<(int, int)>::empty()
    };
    if i == p.len() {
        assert forall|t: int| p.len() <= t < b.len() implies b[t] != '/' by {
            assert(b[t] == n[t - p.len()]);
        }
        lemma_next_sep_is(b, i, b.len() as int);
        assert(b.subrange(i, b.len() as int) =~= n);
        assert(p.subrange(i, i) =~= Seq::<char>::empty());
        assert(spans_from(p, i) =~= Seq::<(int, int)>::empty());
        assert(spans_from(b, i) == tail);
        assert(Seq::<(int, int)>::empty() + tail =~= tail);
    } else {
        lemma_next_sep_bounds(p, i);
        let j = next_sep(p, i);
        if j == p.len() {
            assert(p[p.len() - 1] != '/');
        }
        assert(j < p.len());
        assert forall|t: int| i <= t < j implies b[t] != '/' by {
            assert(b[t] == p[t]);
        }
        assert(b[j] == p[j]);
        lemma_next_sep_is(b, i, j);
        assert(b.subrange(i, j) =~= p.subrange(i, j));
        lemma_spans_from_append(p, n, j + 1);
        let head = if meaningful(p.subrange(i, j)) {
            seq![(i, j)]
        } else {
            Seq::<(int, int)>::empty()
        };
        assert(spans_from(p, i) == head + spans_from(p, j + 1));
        assert(spans_from(b, i) == head + spans_from(b, j + 1));
        assert(head + (spans_from(p, j + 1) + tail) =~= (head + spans_from(p, j + 1)) + tail);
    }
}

proof fn lemma_spans_from_push_sep(p: Seq<char>, i: int)
    requires
        0 <= i <= p.len(),
    ensures
        spans_from(p.push('/'), i) == spans_from(p, i),
    decreases p.len() - i,
{
    let q = p.push('/');
    lemma_next_sep_bounds(p, i);
    let j = next_sep(p, i);
    assert forall|t: int| i <= t < j implies q[t] != '/' by {
        assert(q[t] == p[t]);
    }
    if j < p.len() {
        assert(q[j] == p[j]);
    } else {
        assert(q[j] == '/');
    }
    lemma_next_sep_is(q, i, j);
    assert(q.subrange(i, j) =~= p.subrange(i, j));
    let head = if meaningful(p.subrange(i, j)) {
        seq![(i, j)]
    } else {
        Seq::<(int, int)>::empty()
    };
    if j < p.len() {
        lemma_spans_from_push_sep(p, j + 1);
    } else {
        let e = q.len() as int;
        lemma_next_sep_is(q, e, e);
        assert(q.subrange(e, e) =~= Seq::<char>::empty());
        assert(spans_from(q, e) =~= Seq::<(int, int)>::empty());
        assert(spans_from(q, i) == head + spans_from(q, e));
        assert(head + Seq::<(int, int)>::empty() =~= head);
    }
}

proof fn lemma_comps_join(p: Seq<char>, n: Seq<char>)
    requires
        no_sep(n),
        n.len() > 2,
    ensures
        comps(join(p, n)) == comps(p).push(Comp::Normal(n)),
{
    let b = join(p, n);
    let tail_span = seq![((b.len() - n.len()) as int, b.len() as int)];
    assert(meaningful(n)) by {
        if n == seq!['.'] {
            assert(n.len() == 1);
        }
    }
    // the spans of the joined path are those of `p` and then the name
    if p.len() == 0 {
        assert(b =~= n);
        assert(!has_root(b));
        assert(!has_cur(b)) by {
            if b.len() > 1 {
                assert(b[1] != '/');
            }
        }
        lemma_spans_from_append(p, n, 0);
        assert(p + n =~= b);
        assert(spans_from(p, 0) =~= Seq::<(int, int)>::empty()) by {
            lemma_next_sep_is(p, 0, 0);
            assert(p.subrange(0, 0) =~= Seq::<char>::empty());
        }
        assert(spans(b) =~= spans(p) + tail_span);
    } else {
        let q = if p.last() == '/' {
            p
        } else {
            p.push('/')
        };
        assert(b =~= q + n);
        assert(q.last() == '/');
        assert(b[0] == p[0]);
        assert(has_root(b) == has_root(p));
        assert(has_cur(b) == has_cur(p)) by {
            if p.len() >= 2 {
                assert(b[1] == p[1]);
            } else if p[0] == '.' {
                assert(b[1] == '/');
            }
        }
        let start: int = if has_root(p) || has_cur(p) {
            1
        } else {
            0
        };
        lemma_spans_from_append(q, n, start);
        if p.last() != '/' {
            lemma_spans_from_push_sep(p, start);
        }
        assert(spans_from(b, start) == spans_from(p, start) + tail_span);
        if has_root(p) || has_cur(p) {
            assert(spans(b) =~= spans(p) + tail_span);
        } else {
            assert(spans(b) =~= spans(p) + tail_span);
        }
    }
    assert(spans(b) =~= spans(p) + tail_span);
    lemma_all_spans_wf(p);
    let m = spans(p).len() as int;
    assert forall|k: int| 0 <= k < m implies comp_at(b, k) == comp_at(p, k) by {
        assert(spans(b)[k] == spans(p)[k]);
        let sp = spans(p)[k];
        assert(b.subrange(sp.0, sp.1) =~= p.subrange(sp.0, sp.1)) by {
            assert forall|t: int| 0 <= t < sp.1 - sp.0 implies b.subrange(sp.0, sp.1)[t]
                == p.subrange(sp.0, sp.1)[t] by {
                assert(b[sp.0 + t] == p[sp.0 + t]);
            }
        }
        if p.len() == 0 {
            assert(false);
        }
        assert(has_root(b) == has_root(p));
        assert(has_cur(b) == has_cur(p)) by {
            if p.len() >= 2 {
                assert(b[1] == p[1]);
            } else if p[0] == '.' && p.last() != '/' {
                assert(b[1] == '/');
            }
        }
    }
    assert(spans(b)[m] == tail_span[0]);
    assert(b.subrange(b.len() - n.len(), b.len() as int) =~= n);
    assert(comp_at(b, m) == Comp::Normal(n)) by {
        if m == 0 {
            if has_root(b) || has_cur(b) {
                assert(p.len() > 0);
                assert(has_root(p) || has_cur(p)) by {
                    assert(b[0] == p[0]);
                    if has_cur(b) && p.len() >= 2 {
                        assert(b[1] == p[1]);
                    }
                }
                assert(spans(p).len() > 0);
            }
        }
        if n == seq!['.', '.'] {
            assert(n.len() == 2);
        }
    }
    assert(comps(b) =~= comps(p).push(Comp::Normal(n)));
}

/// Whether the body spans of `s.take(k)` from `i` are the first `c` body
/// spans of `s` from `i`, and the rest of them start after `k`.
spec fn cut_at(s: Seq<char>, i: int, k: int, c: int) -> bool {
    &&& 0 <= c <= spans_from(s, i).len()
    &&& spans_from(s.take(k), i) == spans_from(s, i).take(c)
    &&& forall|d: int| c <= d < spans_from(s, i).len() ==> #[trigger] spans_from(s, i)[d].0 > k
}

proof fn lemma_spans_from_take(s: Seq<char>, i: int, k: int)
    requires
        0 <= i <= k <= s.len(),
        k == s.len() || s[k] == '/',
    ensures
        exists|c: int| #[trigger] cut_at(s, i, k, c),
    decreases s.len() - i,
{
    let t = s.take(k);
    lemma_next_sep_bounds(s, i);
    let j = next_sep(s, i);
    if j > k {
        assert(s[k] != '/');
    }
    assert(j <= k);
    assert forall|u: int| i <= u < j implies t[u] != '/' by {
        assert(t[u] == s[u]);
    }
    if j < k {
        assert(t[j] == s[j]);
    }
    lemma_next_sep_is(t, i, j);
    assert(t.subrange(i, j) =~= s.subrange(i, j));
    let head = if meaningful(s.subrange(i, j)) {
        seq![(i, j)]
    } else {
        Seq::<(int, int)>::empty()
    };
    if j < k {
        lemma_spans_from_take(s, j + 1, k);
        let c = choose|c: int| #[trigger] cut_at(s, j + 1, k, c);
        let rest = spans_from(s, j + 1);
        assert(spans_from(s, i) == head + rest);
        assert(spans_from(t, i) == head + spans_from(t, j + 1));
        assert(spans_from(t, i) =~= (head + rest).take(head.len() + c));
        assert forall|d: int| head.len() + c <= d < spans_from(s, i).len() implies #[trigger] spans_from(
            s,
            i,
        )[d].0 > k by {
            assert(spans_from(s, i)[d] == rest[d - head.len()]);
        }
        assert(cut_at(s, i, k, head.len() + c));
    } else {
        assert(spans_from(t, i) == head);
        if j < s.len() {
            lemma_spans_wf(s, j + 1);
            let rest = spans_from(s, j + 1);
            assert(spans_from(s, i) == head + rest);
            assert(spans_from(t, i) =~= (head + rest).take(head.len() as int));
            assert forall|d: int| head.len() <= d < spans_from(s, i).len() implies #[trigger] spans_from(
                s,
                i,
            )[d].0 > k by {
                assert(spans_from(s, i)[d] == rest[d - head.len()]);
            }
            assert(cut_at(s, i, k, head.len() as int));
        } else {
            assert(spans_from(s, i) == head);
            assert(spans_from(t, i) =~= spans_from(s, i).take(head.len() as int));
            assert(cut_at(s, i, k, head.len() as int));
        }
    }
}

proof fn lemma_spans_from_ordered(s: Seq<char>, i: int)
    requires
        0 <= i <= s.len(),
    ensures
        forall|a: int, b: int|
            0 <= a < b < spans_from(s, i).len() ==> #[trigger] spans_from(s, i)[a].1 < #[trigger] spans_from(
                s,
                i,
            )[b].0,
    decreases s.len() - i,
{
    lemma_next_sep_bounds(s, i);
    let j = next_sep(s, i);
    let head = if meaningful(s.subrange(i, j)) {
        seq![(i, j)]
    } else {
        Seq::<(int, int)>::empty()
    };
    if j < s.len() {
        lemma_spans_from_ordered(s, j + 1);
        lemma_spans_wf(s, j + 1);
        let rest = spans_from(s, j + 1);
        assert(spans_from(s, i) == head + rest);
        assert forall|a: int, b: int| 0 <= a < b < spans_from(s, i).len() implies #[trigger] spans_from(
            s,
            i,
        )[a].1 < #[trigger] spans_from(s, i)[b].0 by {
            assert(spans_from(s, i)[b] == rest[b - head.len()]);
            if a >= head.len() {
                assert(spans_from(s, i)[a] == rest[a - head.len()]);
            }
        }
    }
}

proof fn lemma_comps_prefix(s: Seq<char>, k: int)
    requires
        1 <= k <= s.len(),
        spans(s.take(k)) == spans(s).drop_last(),
        has_root(s.take(k)) == has_root(s),
        has_cur(s.take(k)) == has_cur(s),
        spans(s).len() >= 1,
        forall|d: int| 0 <= d < spans(s).len() - 1 ==> #[trigger] spans(s)[d].1 <= k,
    ensures
        comps(s.take(k)) == comps(s).drop_last(),
{
    let t = s.take(k);
    let n = spans(s).len();
    lemma_all_spans_wf(s);
    assert forall|d: int| 0 <= d < n - 1 implies comp_at(t, d) == comp_at(s, d) by {
        let sp = spans(s)[d];
        assert(spans(t)[d] == sp);
        assert(sp.1 <= k);
        assert(t.subrange(sp.0, sp.1) =~= s.subrange(sp.0, sp.1));
    }
    assert(comps(t) =~= comps(s).drop_last());
}

#[verifier::rlimit(30)]
proof fn lemma_parent_spans(s: Seq<char>)
    requires
        spans(s).len() >= 2,
        !((has_root(s) || has_cur(s)) && spans(s).len() == 2),
    ensures
        spans(s.take(spans(s)[spans(s).len() - 2].1)) == spans(s).drop_last(),
        forall|d: int|
            0 <= d < spans(s).len() - 1 ==> #[trigger] spans(s)[d].1 <= spans(s)[spans(s).len() - 2].1,
        1 <= spans(s)[spans(s).len() - 2].1 <= s.len(),
        has_root(s.take(spans(s)[spans(s).len() - 2].1)) == has_root(s),
        has_cur(s.take(spans(s)[spans(s).len() - 2].1)) == has_cur(s),
{
    let n = spans(s).len();
    let k = spans(s)[n - 2].1;
    let t = s.take(k);
    let flag = has_root(s) || has_cur(s);
    let start: int = if flag {
        1
    } else {
        0
    };
    let off = start;
    lemma_all_spans_wf(s);
    let sf = spans_from(s, start);
    if flag {
        assert(spans(s) == seq![(0int, 1int)] + sf);
    } else {
        assert(spans(s) == sf);
    }
    assert forall|d: int| 0 <= d < sf.len() implies spans(s)[d + off] == #[trigger] sf[d] by {
    }
    let e = sf[n - 2 - off];
    assert(e == spans(s)[n - 2]);
    lemma_spans_wf(s, start);
    assert(start <= sf[n - 2 - off].0 < sf[n - 2 - off].1 <= s.len());
    lemma_spans_from_end(s, start, n - 2 - off);
    lemma_spans_from_take(s, start, k);
    lemma_spans_from_ordered(s, start);
    let c = choose|c: int| #[trigger] cut_at(s, start, k, c);
    let m = sf.len() - 1;
    assert(c == m) by {
        if c < m {
            assert(sf[c].0 > k);
            assert(sf[c].0 < sf[c].1);
            if c < m - 1 {
                assert(sf[c].1 < sf[m - 1].0);
            }
        }
        if c == sf.len() {
            assert(sf[m - 1].1 < sf[m].0);
            assert(spans_from(t, start) == sf);
            lemma_spans_wf(t, start);
            assert(spans_from(t, start)[m].1 <= t.len());
            assert(sf[m].0 < sf[m].1);
        }
    }
    assert(t[0] == s[0]);
    assert(has_cur(t) == has_cur(s)) by {
        if k >= 2 {
            assert(t[1] == s[1]);
        } else if has_cur(s) {
            assert(sf[0].0 >= 1);
        }
    }
    assert(spans(t) =~= spans(s).drop_last());
    assert forall|d: int| 0 <= d < n - 1 implies #[trigger] spans(s)[d].1 <= k by {
        if d < n - 2 && d >= off {
            assert(sf[d - off].1 < sf[n - 2 - off].0);
        }
    }
}

/// The prefix that `Path::parent` gives has the components of `s` but the
/// last.
pub proof fn lemma_parent_comps(s: Seq<char>)
    requires
        parent_len(s) is Some,
    ensures
        comps(s.take(parent_len(s)->Some_0)) == comps(s).drop_last(),
{
    let k = parent_len(s)->Some_0;
    let n = spans(s).len();
    let t = s.take(k);
    let flag = has_root(s) || has_cur(s);
    lemma_all_spans_wf(s);
    if n == 1 {
        assert(t =~= Seq::<char>::empty());
        assert(spans_from(t, 0) =~= Seq::<(int, int)>::empty()) by {
            lemma_next_sep_is(t, 0, 0);
            assert(t.subrange(0, 0) =~= Seq::<char>::empty());
        }
        assert(comps(t) =~= comps(s).drop_last());
    } else if flag && n == 2 {
        // the parent is the root or the leading `.` alone
        assert(spans(s) == seq![(0int, 1int)] + spans_from(s, 1));
        assert(k == 1);
        assert(t.len() == 1 && t[0] == s[0]);
        assert(spans_from(t, 1) =~= Seq::<(int, int)>::empty()) by {
            lemma_next_sep_is(t, 1, 1);
            assert(t.subrange(1, 1) =~= Seq::<char>::empty());
        }
        assert(spans(t) =~= seq![(0int, 1int)]);
        assert(comps(t) =~= comps(s).drop_last());
    } else {
        lemma_parent_spans(s);
        lemma_comps_prefix(s, k);
    }
}

proof fn lemma_spans_from_end(s: Seq<char>, i: int, d: int)
    requires
        0 <= i <= s.len(),
        0 <= d < spans_from(s, i).len(),
    ensures
        spans_from(s, i)[d].1 == s.len() || s[spans_from(s, i)[d].1] == '/',
    decreases s.len() - i,
{
    lemma_next_sep_bounds(s, i);
    let j = next_sep(s, i);
    let head = if meaningful(s.subrange(i, j)) {
        seq![(i, j)]
    } else {
        Seq::<(int, int)>::empty()
    };
    if j < s.len() {
        assert(spans_from(s, i) == head + spans_from(s, j + 1));
        if d >= head.len() {
            lemma_spans_from_end(s, j + 1, d - head.len());
        }
    } else {
        assert(spans_from(s, i) == head);
    }
}

/// A backup lies in the directory of what it backs up, under that file's
/// name with `.privconf.bak` appended: its components are those of the
/// original with the last one replaced by that name.
pub proof fn law_backup_beside(s: Seq<char>)
    requires
        parent_len(s) is Some,
    ensures
        comps(backup_of(s)) == comps(s.take(parent_len(s)->Some_0)).push(Comp::Normal(backup_name(s))),
        comps(backup_of(s)) == comps(s).drop_last().push(Comp::Normal(backup_name(s))),
        file_name(backup_of(s)) == Some(backup_name(s)),
{
    lemma_parent_comps(s);
    let name = backup_name(s);
    let n = spans(s).len();
    assert(no_sep(name)) by {
        let suffix = backup_suffix();
        assert(no_sep(suffix));
        if file_name(s) is Some {
            let f = file_name(s)->Some_0;
            let sp = spans(s)[n - 1];
            assert(f == s.subrange(sp.0, sp.1));
            assert(!(n - 1 == 0 && (has_root(s) || has_cur(s))));
            if has_root(s) || has_cur(s) {
                lemma_spans_from_no_sep(s, 1);
                assert(spans(s)[n - 1] == spans_from(s, 1)[n - 2]);
            } else {
                lemma_spans_from_no_sep(s, 0);
                assert(spans(s)[n - 1] == spans_from(s, 0)[n - 1]);
            }
            assert forall|t: int| 0 <= t < name.len() implies name[t] != '/' by {
                if t < f.len() {
                    assert(name[t] == f[t]);
                } else {
                    assert(name[t] == suffix[t - f.len()]);
                }
            }
        } else {
            assert(name =~= suffix);
        }
    }
    lemma_comps_join(s.take(parent_len(s)->Some_0), name);
    let b = backup_of(s);
    assert(comps(b).len() == spans(b).len());
    let m = spans(b).len() - 1;
    assert(comps(b)[m] == comp_at(b, m));
}


/// `cs` without a leading `.` component: what a relative path adds when it
/// is joined onto a non-empty one.
pub open spec fn drop_cur(cs: Seq<Comp>) -> Seq<Comp> {
    if cs.len() > 0 && cs[0] == Comp::Cur {
        cs.drop_first()
    } else {
        cs
    }
}

/// The component that a segment names: `..` or a normal name.
spec fn seg_comp(seg: Seq<char>) -> Comp {
    if seg == seq!['.', '.'] {
        Comp::Parent
    } else {
        Comp::Normal(seg)
    }
}

/// Spans moved `d` places on.
spec fn shift(sp: Seq<(int, int)>, d: int) -> Seq<(int, int)> {
    Seq::new(sp.len(), |k: int| (sp[k].0 + d, sp[k].1 + d))
}

proof fn lemma_spans_from_shift(q: Seq<char>, r: Seq<char>, i: int)
    requires
        0 <= i <= r.len(),
    ensures
        spans_from(q + r, q.len() + i) == shift(spans_from(r, i), q.len() as int),
    decreases r.len() - i,
{
    let b = q + r;
    let d = q.len() as int;
    lemma_next_sep_bounds(r, i);
    let j = next_sep(r, i);
    assert forall|t: int| d + i <= t < d + j implies b[t] != '/' by {
        assert(b[t] == r[t - d]);
    }
    if j < r.len() {
        assert(b[d + j] == r[j]);
    }
    lemma_next_sep_is(b, d + i, d + j);
    assert(b.subrange(d + i, d + j) =~= r.subrange(i, j));
    let head = if meaningful(r.subrange(i, j)) {
        seq![(i, j)]
    } else {
        Seq::<(int, int)>::empty()
    };
    if j < r.len() {
        lemma_spans_from_shift(q, r, j + 1);
        assert(spans_from(r, i) == head + spans_from(r, j + 1));
        assert(spans_from(b, d + i) == shift(head, d) + spans_from(b, d + j + 1));
        assert(shift(head, d) + shift(spans_from(r, j + 1), d) =~= shift(spans_from(r, i), d));
    } else {
        assert(spans_from(r, i) == head);
        assert(spans_from(b, d + i) =~= shift(head, d));
    }
}

proof fn lemma_spans_from_concat(q: Seq<char>, r: Seq<char>, i: int)
    requires
        q.len() == 0 || q.last() == '/',
        0 <= i <= q.len(),
    ensures
        spans_from(q + r, i) == spans_from(q, i) + shift(spans_from(r, 0), q.len() as int),
    decreases q.len() - i,
{
    let b = q + r;
    let tail = shift(spans_from(r, 0), q.len() as int);
    if i == q.len() {
        lemma_spans_from_shift(q, r, 0);
        lemma_next_sep_is(q, i, i);
        assert(q.subrange(i, i) =~= Seq::<char>::empty());
        assert(spans_from(q, i) =~= Seq::<(int, int)>::empty());
        assert(Seq::<(int, int)>::empty() + tail =~= tail);
    } else {
        lemma_next_sep_bounds(q, i);
        let j = next_sep(q, i);
        if j == q.len() {
            assert(q[q.len() - 1] != '/');
        }
        assert(j < q.len());
        assert forall|t: int| i <= t < j implies b[t] != '/' by {
            assert(b[t] == q[t]);
        }
        assert(b[j] == q[j]);
        lemma_next_sep_is(b, i, j);
        assert(b.subrange(i, j) =~= q.subrange(i, j));
        lemma_spans_from_concat(q, r, j + 1);
        let head = if meaningful(q.subrange(i, j)) {
            seq![(i, j)]
        } else {
            Seq::<(int, int)>::empty()
        };
        assert(spans_from(q, i) == head + spans_from(q, j + 1));
        assert(spans_from(b, i) == head + spans_from(b, j + 1));
        assert(head + (spans_from(q, j + 1) + tail) =~= (head + spans_from(q, j + 1)) + tail);
    }
}

proof fn lemma_cur_spans(r: Seq<char>)
    requires
        has_cur(r),
    ensures
        spans_from(r, 0) == spans_from(r, 1),
{
    lemma_next_sep_is(r, 1, 1);
    lemma_next_sep_is(r, 0, 1);
    assert(r.subrange(0, 1) =~= seq!['.']);
    assert(r.subrange(1, 1) =~= Seq::<char>::empty());
    if r.len() == 1 {
        assert(spans_from(r, 0) =~= Seq::<(int, int)>::empty());
        assert(spans_from(r, 1) =~= Seq::<(int, int)>::empty());
    } else {
        assert(spans_from(r, 0) =~= spans_from(r, 2));
        assert(spans_from(r, 1) =~= spans_from(r, 2));
    }
}

/// The components of a relative path past a leading `.` are those its
/// body spans name.
proof fn lemma_rel_comps(r: Seq<char>)
    requires
        r.len() == 0 || r[0] != '/',
    ensures
        drop_cur(comps(r)) == Seq::new(
            spans_from(r, 0).len(),
            |k: int| seg_comp(r.subrange(spans_from(r, 0)[k].0, spans_from(r, 0)[k].1)),
        ),
{
    let sr = spans_from(r, 0);
    let want = Seq::new(sr.len(), |k: int| seg_comp(r.subrange(sr[k].0, sr[k].1)));
    assert(!has_root(r));
    if has_cur(r) {
        lemma_cur_spans(r);
        assert(spans(r) == seq![(0int, 1int)] + spans_from(r, 1));
        assert(comps(r)[0] == Comp::Cur);
        assert forall|k: int| 0 <= k < sr.len() implies drop_cur(comps(r))[k] == want[k] by {
            assert(spans(r)[k + 1] == sr[k]);
            assert(drop_cur(comps(r))[k] == comp_at(r, k + 1));
        }
        assert(drop_cur(comps(r)) =~= want);
    } else {
        assert(spans(r) == sr);
        if comps(r).len() > 0 {
            assert(comps(r)[0] == comp_at(r, 0));
            assert(comp_at(r, 0) != Comp::Cur);
        }
        assert forall|k: int| 0 <= k < sr.len() implies comps(r)[k] == want[k] by {
            assert(comps(r)[k] == comp_at(r, k));
        }
        assert(drop_cur(comps(r)) =~= want);
    }
}

/// Joining a relative path onto a non-empty one appends its components,
/// less a leading `.`.
pub proof fn lemma_comps_join_rel(p: Seq<char>, r: Seq<char>)
    requires
        p.len() > 0,
        r.len() == 0 || r[0] != '/',
    ensures
        comps(join(p, r)) == comps(p) + drop_cur(comps(r)),
{
    let b = join(p, r);
    let q = if p.last() == '/' {
        p
    } else {
        p.push('/')
    };
    assert(b =~= q + r);
    assert(q.last() == '/');
    assert(b[0] == p[0]);
    assert(has_root(b) == has_root(p));
    assert(has_cur(b) == has_cur(p)) by {
        if p.len() >= 2 {
            assert(b[1] == p[1]);
        } else if p[0] == '.' {
            assert(b[1] == '/');
        }
    }
    let start: int = if has_root(p) || has_cur(p) {
        1
    } else {
        0
    };
    let sr = spans_from(r, 0);
    let d = q.len() as int;
    let tail = shift(sr, d);
    lemma_spans_from_concat(q, r, start);
    if p.last() != '/' {
        lemma_spans_from_push_sep(p, start);
    }
    assert(spans_from(b, start) == spans_from(p, start) + tail);
    assert(spans(b) =~= spans(p) + tail);
    lemma_all_spans_wf(p);
    lemma_spans_wf(r, 0);
    lemma_rel_comps(r);
    let m = spans(p).len() as int;
    let rc = drop_cur(comps(r));
    assert forall|k: int| 0 <= k < m implies comp_at(b, k) == comp_at(p, k) by {
        assert(spans(b)[k] == spans(p)[k]);
        let sp = spans(p)[k];
        assert(b.subrange(sp.0, sp.1) =~= p.subrange(sp.0, sp.1)) by {
            assert forall|t: int| 0 <= t < sp.1 - sp.0 implies b.subrange(sp.0, sp.1)[t]
                == p.subrange(sp.0, sp.1)[t] by {
                assert(b[sp.0 + t] == p[sp.0 + t]);
            }
        }
    }
    assert forall|k: int| m <= k < m + sr.len() implies comp_at(b, k) == rc[k - m] by {
        assert(spans(b)[k] == tail[k - m]);
        let sp = sr[k - m];
        assert(b.subrange(sp.0 + d, sp.1 + d) =~= r.subrange(sp.0, sp.1)) by {
            assert forall|t: int| 0 <= t < sp.1 - sp.0 implies b.subrange(sp.0 + d, sp.1 + d)[t]
                == r.subrange(sp.0, sp.1)[t] by {
                assert(b[sp.0 + d + t] == r[sp.0 + t]);
            }
        }
        if k == 0 {
            assert(!(has_root(p) || has_cur(p))) by {
                if has_root(p) || has_cur(p) {
                    assert(spans(p).len() > 0);
                }
            }
        }
    }
    assert(comps(b) =~= comps(p) + rc);
}

/// Whether the last component of `s` is a normal one, as it is whenever `s`
/// has a file name.
proof fn lemma_file_name_last(s: Seq<char>)
    requires
        file_name(s) is Some,
    ensures
        comps(s).len() > 0,
        comps(s).last() == Comp::Normal(file_name(s)->Some_0),
        parent_len(s) is Some,
{
}

/// The backup of `cwd` joined with a relative `rel` is `cwd` joined with
/// the backup of `rel`: the same components, so the backup that linking
/// makes of a target is the one its relative name refers to.
pub proof fn law_backup_joined(cwd: Seq<char>, rel: Seq<char>)
    requires
        rel.len() == 0 || rel[0] != '/',
        file_name(rel) is Some,
    ensures
        comps(backup_of(join(cwd, rel))) == comps(join(cwd, backup_of(rel))),
{
    let t = backup_of(rel);
    if cwd.len() == 0 {
        assert(join(cwd, rel) =~= rel);
        assert(join(cwd, t) =~= t);
    } else {
        let s = join(cwd, rel);
        let c = comps(rel);
        lemma_file_name_last(rel);
        let f = file_name(rel)->Some_0;
        lemma_comps_join_rel(cwd, rel);
        let dc = drop_cur(c);
        assert(dc.len() > 0 && dc.last() == Comp::Normal(f)) by {
            if c[0] == Comp::Cur {
                assert(c.len() > 1);
                assert(dc.last() == c.last());
            }
        }
        assert(comps(s).last() == Comp::Normal(f));
        let ns = spans(s).len() as int;
        assert(comps(s)[ns - 1] == comp_at(s, ns - 1));
        assert(file_name(s) == Some(f));
        assert(backup_name(s) == backup_name(rel));
        let bn = backup_name(rel);
        law_backup_beside(s);
        law_backup_beside(rel);
        assert(comps(t) == c.drop_last().push(Comp::Normal(bn)));
        assert(t.len() == 0 || t[0] != '/') by {
            if t.len() > 0 && t[0] == '/' {
                assert(has_root(t));
                lemma_all_spans_wf(t);
                assert(spans(t).len() > 0);
                assert(comps(t)[0] == Comp::Root);
                if c.len() > 1 {
                    assert(comps(t)[0] == c[0]);
                    assert(c[0] == comp_at(rel, 0));
                    assert(!has_root(rel));
                }
            }
        }
        lemma_comps_join_rel(cwd, t);
        assert(drop_cur(comps(t)) =~= dc.drop_last().push(Comp::Normal(bn))) by {
            if c[0] == Comp::Cur {
                assert(c.len() > 1);
                assert(comps(t)[0] == c[0]);
            } else if c.len() > 1 {
                assert(comps(t)[0] == c[0]);
            } else {
                assert(comps(t)[0] == Comp::Normal(bn));
            }
        }
        assert(comps(s).drop_last() =~= comps(cwd) + dc.drop_last());
        assert(comps(backup_of(s)) =~= comps(join(cwd, t)));
    }
}

} // verus!
