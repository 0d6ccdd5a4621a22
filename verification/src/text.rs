//! Character-level text operations on `&str`, each with its meaning stated
//! over `Seq<char>`.
use vstd::prelude::*;
use vstd::string::*;

verus! {

/// The Unicode `White_Space` property, which `char::is_whitespace` tests.
pub open spec fn is_ws(c: char) -> bool {
    ||| ('\u{9}' <= c && c <= '\u{d}')
    ||| c == ' '
    ||| c == '\u{85}'
    ||| c == '\u{a0}'
    ||| c == '\u{1680}'
    ||| ('\u{2000}' <= c && c <= '\u{200a}')
    ||| c == '\u{2028}'
    ||| c == '\u{2029}'
    ||| c == '\u{202f}'
    ||| c == '\u{205f}'
    ||| c == '\u{3000}'
}

/// `s` without its leading whitespace.
pub open spec fn trim_start(s: Seq<char>) -> Seq<char>
    decreases s.len(),
{
    if s.len() > 0 && is_ws(s[0]) {
        trim_start(s.drop_first())
    } else {
        s
    }
}

/// `s` without its trailing whitespace.
pub open spec fn trim_end(s: Seq<char>) -> Seq<char>
    decreases s.len(),
{
    if s.len() > 0 && is_ws(s.last()) {
        trim_end(s.drop_last())
    } else {
        s
    }
}

/// `s` without leading and trailing whitespace, as `str::trim` gives it.
pub open spec fn trim(s: Seq<char>) -> Seq<char> {
    trim_end(trim_start(s))
}

/// Whether `c` is whitespace.
pub fn char_is_ws(c: char) -> (r: bool)
    ensures
        r == is_ws(c),
{
    ('\u{9}' <= c && c <= '\u{d}') || c == ' ' || c == '\u{85}' || c == '\u{a0}' || c == '\u{1680}'
        || ('\u{2000}' <= c && c <= '\u{200a}') || c == '\u{2028}' || c == '\u{2029}' || c
        == '\u{202f}' || c == '\u{205f}' || c == '\u{3000}'
}

/// Whether two strings hold the same characters.
pub fn str_eq(a: &str, b: &str) -> (r: bool)
    ensures
        r == (a@ == b@),
{
    let n = a.unicode_len();
    if n != b.unicode_len() {
        return false;
    }
    let mut i: usize = 0;
    while i < n
        invariant
            n == a@.len(),
            n == b@.len(),
            i <= n,
            forall|j: int| 0 <= j < i ==> a@[j] == b@[j],
        decreases n - i,
    {
        if a.get_char(i) != b.get_char(i) {
            return false;
        }
        i = i + 1;
    }
    assert(a@ =~= b@);
    true
}

proof fn lemma_trim_start_skip(s: Seq<char>, i: int)
    requires
        0 <= i <= s.len(),
        forall|j: int| 0 <= j < i ==> is_ws(s[j]),
    ensures
        trim_start(s.subrange(i, s.len() as int)) == trim_start(s),
    decreases i,
{
    if i > 0 {
        lemma_trim_start_skip(s, i - 1);
        let t = s.subrange(i - 1, s.len() as int);
        assert(t[0] == s[i - 1]);
        assert(t.drop_first() =~= s.subrange(i, s.len() as int));
    } else {
        assert(s.subrange(0, s.len() as int) =~= s);
    }
}

proof fn lemma_trim_end_take(s: Seq<char>, k: int)
    requires
        0 <= k <= s.len(),
        forall|j: int| k <= j < s.len() ==> is_ws(s[j]),
    ensures
        trim_end(s.subrange(0, k)) == trim_end(s),
    decreases s.len() - k,
{
    if k < s.len() {
        lemma_trim_end_take(s, k + 1);
        let t = s.subrange(0, k + 1);
        assert(t.drop_last() =~= s.subrange(0, k));
    } else {
        assert(s.subrange(0, k) =~= s);
    }
}

/// `s` without leading and trailing whitespace (`str::trim`).
pub fn trim_str(s: &str) -> (r: &str)
    ensures
        r@ == trim(s@),
{
    let n = s.unicode_len();
    let mut a: usize = 0;
    while a < n && char_is_ws(s.get_char(a))
        invariant
            n == s@.len(),
            a <= n,
            forall|j: int| 0 <= j < a ==> is_ws(s@[j]),
        decreases n - a,
    {
        a = a + 1;
    }
    let ghost t = s@.subrange(a as int, n as int);
    proof {
        lemma_trim_start_skip(s@, a as int);
        if a < n {
            assert(t[0] == s@[a as int]);
        }
        assert(trim_start(t) == t);
    }
    let mut b: usize = n;
    while b > a && char_is_ws(s.get_char(b - 1))
        invariant
            n == s@.len(),
            a <= b <= n,
            t == s@.subrange(a as int, n as int),
            forall|j: int| b <= j < n ==> is_ws(s@[j]),
        decreases b - a,
    {
        b = b - 1;
    }
    proof {
        let k = (b - a) as int;
        assert forall|j: int| k <= j < t.len() implies is_ws(t[j]) by {
            assert(t[j] == s@[a + j]);
        }
        lemma_trim_end_take(t, k);
        assert(t.subrange(0, k) =~= s@.subrange(a as int, b as int));
        let u = s@.subrange(a as int, b as int);
        if u.len() > 0 {
            assert(u.last() == s@[b - 1]);
        }
        assert(trim_end(u) == u);
    }
    s.substring_char(a, b)
}


/// The index of the first line feed in `s`, or `s.len()` when there is none.
pub open spec fn first_lf(s: Seq<char>) -> nat
    decreases s.len(),
{
    if s.len() == 0 {
        0
    } else if s[0] == '\n' {
        0
    } else {
        1 + first_lf(s.drop_first())
    }
}

/// `l` without one trailing carriage return.
pub open spec fn strip_cr(l: Seq<char>) -> Seq<char> {
    if l.len() > 0 && l.last() == '\r' {
        l.drop_last()
    } else {
        l
    }
}

/// The lines of `s` as `str::lines` yields them: split at each `\n`, a
/// `\r` right before the `\n` dropped with it, and no final empty line.
pub open spec fn lines_of(s: Seq<char>) -> Seq<Seq<char>>
    decreases s.len(),
{
    if s.len() == 0 {
        seq![]
    } else {
        let k = first_lf(s);
        if k >= s.len() {
            seq![s]
        } else {
            seq![strip_cr(s.take(k as int))] + lines_of(s.skip(k + 1 as int))
        }
    }
}

pub proof fn lemma_first_lf(s: Seq<char>, m: int)
    requires
        0 <= m <= s.len(),
        forall|j: int| 0 <= j < m ==> s[j] != '\n',
        m == s.len() || s[m] == '\n',
    ensures
        first_lf(s) == m,
    decreases m,
{
    if m > 0 {
        let t = s.drop_first();
        assert forall|j: int| 0 <= j < m - 1 implies t[j] != '\n' by {
            assert(t[j] == s[j + 1]);
        }
        if m < s.len() {
            assert(t[m - 1] == s[m]);
        }
        lemma_first_lf(t, m - 1);
    }
}

/// The lines of `s` (`str::lines`).
pub fn split_lines(s: &str) -> (r: Vec<String>)
    ensures
        r.deep_view() == lines_of(s@),
{
    let n = s.unicode_len();
    let mut out: Vec<String> = Vec::new();
    let mut start: usize = 0;
    let mut i: usize = 0;
    assert(s@.subrange(0, n as int) =~= s@);
    assert(out.deep_view() =~= Seq::<Seq<char>>::empty());
    assert(Seq::<Seq<char>>::empty() + lines_of(s@) =~= lines_of(s@));
    while i < n
        invariant
            n == s@.len(),
            start <= i <= n,
            out.deep_view() + lines_of(s@.subrange(start as int, n as int)) == lines_of(s@),
            forall|j: int| start <= j < i ==> s@[j] != '\n',
        decreases n - i,
    {
        if s.get_char(i) == '\n' {
            let ghost t = s@.subrange(start as int, n as int);
            proof {
                assert forall|j: int| 0 <= j < i - start implies t[j] != '\n' by {
                    assert(t[j] == s@[start + j]);
                }
                assert(t[i - start] == s@[i as int]);
                lemma_first_lf(t, i - start);
                assert(t.take(i - start) =~= s@.subrange(start as int, i as int));
                assert(t.skip(i - start + 1) =~= s@.subrange(i + 1, n as int));
            }
            let end = if i > start && s.get_char(i - 1) == '\r' {
                i - 1
            } else {
                i
            };
            let line = String::from_str(s.substring_char(start, end));
            proof {
                let l = s@.subrange(start as int, i as int);
                if i > start && s@[i - 1] == '\r' {
                    assert(l.last() == s@[i - 1]);
                    assert(l.drop_last() =~= s@.subrange(start as int, end as int));
                } else {
                    if l.len() > 0 {
                        assert(l.last() == s@[i - 1]);
                    }
                }
                assert(line@ == strip_cr(l));
            }
            let ghost old_out = out.deep_view();
            out.push(line);
            assert(out.deep_view() =~= old_out.push(line@));
            start = i + 1;
        }
        i = i + 1;
    }
    if start < n {
        let ghost t = s@.subrange(start as int, n as int);
        proof {
            assert forall|j: int| 0 <= j < n - start implies t[j] != '\n' by {
                assert(t[j] == s@[start + j]);
            }
            lemma_first_lf(t, n - start);
        }
        let line = String::from_str(s.substring_char(start, n));
        let ghost old_out = out.deep_view();
        out.push(line);
        assert(out.deep_view() =~= old_out.push(line@));
        assert(lines_of(t) == seq![t]);
        assert(old_out + seq![t] =~= old_out.push(t));
    } else {
        assert(s@.subrange(start as int, n as int) =~= Seq::<char>::empty());
        assert(out.deep_view() + Seq::<Seq<char>>::empty() =~= out.deep_view());
    }
    out
}

/// `lines` joined with `sep` between each two of them.
pub open spec fn join_with(lines: Seq<Seq<char>>, sep: Seq<char>) -> Seq<char>
    decreases lines.len(),
{
    if lines.len() == 0 {
        seq![]
    } else if lines.len() == 1 {
        lines[0]
    } else {
        lines[0] + sep + join_with(lines.drop_first(), sep)
    }
}

pub proof fn lemma_join_push(lines: Seq<Seq<char>>, sep: Seq<char>, x: Seq<char>)
    requires
        lines.len() > 0,
    ensures
        join_with(lines.push(x), sep) == join_with(lines, sep) + sep + x,
    decreases lines.len(),
{
    let l2 = lines.push(x);
    if lines.len() == 1 {
        assert(l2.drop_first() =~= seq![x]);
        assert(join_with(l2.drop_first(), sep) == x);
    } else {
        lemma_join_push(lines.drop_first(), sep, x);
        assert(l2.drop_first() =~= lines.drop_first().push(x));
        assert(lines[0] + sep + (join_with(lines.drop_first(), sep) + sep + x) =~= lines[0] + sep
            + join_with(lines.drop_first(), sep) + sep + x);
    }
}

/// `lines` joined with `sep` between each two of them (`[String]::join`).
pub fn join_strings(lines: &Vec<String>, sep: &str) -> (r: String)
    ensures
        r@ == join_with(lines.deep_view(), sep@),
{
    let mut out = String::new();
    let n = lines.len();
    let mut i: usize = 0;
    while i < n
        invariant
            n == lines.len(),
            i <= n,
            out@ == join_with(lines.deep_view().take(i as int), sep@),
        decreases n - i,
    {
        let ghost prev = lines.deep_view().take(i as int);
        if i > 0 {
            out.append(sep);
        }
        out.append(lines[i].as_str());
        proof {
            let next = lines.deep_view().take(i + 1);
            assert(next =~= prev.push(lines[i as int]@));
            if i == 0 {
                assert(next.len() == 1);
                assert(out@ =~= lines[0]@);
            } else {
                lemma_join_push(prev, sep@, lines[i as int]@);
            }
        }
        i = i + 1;
    }
    assert(lines.deep_view().take(n as int) =~= lines.deep_view());
    out
}

/// Whether `needle` occurs in `hay` at index `i`.
pub open spec fn occurs_at(hay: Seq<char>, needle: Seq<char>, i: int) -> bool {
    0 <= i && i + needle.len() <= hay.len() && hay.subrange(i, i + needle.len()) == needle
}

/// Whether `needle` is a substring of `hay` (`str::contains`).
pub open spec fn contains(hay: Seq<char>, needle: Seq<char>) -> bool {
    exists|i: int| occurs_at(hay, needle, i)
}

/// Whether `needle` occurs in `hay` at index `i`.
pub fn str_occurs_at(hay: &str, needle: &str, i: usize) -> (r: bool)
    ensures
        r == occurs_at(hay@, needle@, i as int),
{
    let n = hay.unicode_len();
    let m = needle.unicode_len();
    if i > n || m > n - i {
        return false;
    }
    let mut j: usize = 0;
    while j < m
        invariant
            n == hay@.len(),
            m == needle@.len(),
            i + m <= n,
            j <= m,
            forall|k: int| 0 <= k < j ==> hay@[i + k] == needle@[k],
        decreases m - j,
    {
        if hay.get_char(i + j) != needle.get_char(j) {
            assert(hay@.subrange(i as int, i + m)[j as int] != needle@[j as int]);
            return false;
        }
        j = j + 1;
    }
    assert(hay@.subrange(i as int, i + m) =~= needle@);
    true
}

/// Whether `needle` is a substring of `hay` (`str::contains`).
pub fn str_contains(hay: &str, needle: &str) -> (r: bool)
    ensures
        r == contains(hay@, needle@),
{
    let n = hay.unicode_len();
    let m = needle.unicode_len();
    if m > n {
        return false;
    }
    let last = n - m;
    let mut i: usize = 0;
    loop
        invariant
            n == hay@.len(),
            m == needle@.len(),
            m <= n,
            last == n - m,
            i <= last,
            forall|k: int| 0 <= k < i ==> !occurs_at(hay@, needle@, k),
        ensures
            forall|k: int| 0 <= k <= last ==> !occurs_at(hay@, needle@, k),
        decreases last - i,
    {
        if str_occurs_at(hay, needle, i) {
            return true;
        }
        if i == last {
            break;
        }
        i = i + 1;
    }
    assert forall|k: int| !occurs_at(hay@, needle@, k) by {
        if 0 <= k && k <= last {
        }
    }
    false
}

/// Whether `s` ends with `p`.
pub open spec fn ends_with(s: Seq<char>, p: Seq<char>) -> bool {
    p.len() <= s.len() && s.subrange(s.len() - p.len(), s.len() as int) == p
}

/// `s` with every trailing repetition of the non-empty pattern `p` removed
/// (`str::trim_end_matches`).
pub open spec fn strip_suffixes(s: Seq<char>, p: Seq<char>) -> Seq<char>
    decreases s.len(),
{
    if p.len() > 0 && ends_with(s, p) {
        strip_suffixes(s.subrange(0, s.len() - p.len()), p)
    } else {
        s
    }
}

/// `s` with every trailing repetition of the non-empty pattern `p` removed.
pub fn trim_end_matches<'a>(s: &'a str, p: &str) -> (r: &'a str)
    requires
        p@.len() > 0,
    ensures
        r@ == strip_suffixes(s@, p@),
{
    let m = p.unicode_len();
    let mut e = s.unicode_len();
    assert(s@.subrange(0, e as int) =~= s@);
    while e >= m && str_occurs_at(s, p, e - m)
        invariant
            m == p@.len(),
            m > 0,
            e <= s@.len(),
            strip_suffixes(s@.subrange(0, e as int), p@) == strip_suffixes(s@, p@),
        decreases e,
    {
        proof {
            let t = s@.subrange(0, e as int);
            assert(t.subrange(e - m, e as int) =~= s@.subrange(e - m, e as int));
            assert(t.subrange(0, e - m) =~= s@.subrange(0, e - m));
        }
        e = e - m;
    }
    proof {
        let t = s@.subrange(0, e as int);
        if ends_with(t, p@) {
            assert(t.subrange(e - m, e as int) =~= s@.subrange(e - m, e as int));
        }
    }
    s.substring_char(0, e)
}

/// The part of `s` after its last `c`, or all of `s` when `c` does not occur
/// (the first item of `str::rsplit`).
pub open spec fn after_last(s: Seq<char>, c: char) -> Seq<char>
    decreases s.len(),
{
    if s.len() == 0 {
        s
    } else if s.last() == c {
        seq![]
    } else {
        after_last(s.drop_last(), c).push(s.last())
    }
}

proof fn lemma_after_last(s: Seq<char>, c: char, b: int)
    requires
        0 <= b <= s.len(),
        forall|j: int| b <= j < s.len() ==> s[j] != c,
        b == 0 || s[b - 1] == c,
    ensures
        after_last(s, c) == s.subrange(b, s.len() as int),
    decreases s.len(),
{
    if s.len() > b {
        lemma_after_last(s.drop_last(), c, b);
        assert(s.subrange(b, s.len() - 1).push(s.last()) =~= s.subrange(b, s.len() as int));
    } else if s.len() > 0 {
        assert(s.subrange(b, s.len() as int) =~= Seq::<char>::empty());
    } else {
        assert(s.subrange(b, s.len() as int) =~= s);
    }
}

/// The part of `s` after its last `c`, or all of `s` when `c` does not occur.
pub fn str_after_last(s: &str, c: char) -> (r: &str)
    ensures
        r@ == after_last(s@, c),
{
    let n = s.unicode_len();
    let mut b = n;
    while b > 0 && s.get_char(b - 1) != c
        invariant
            n == s@.len(),
            b <= n,
            forall|j: int| b <= j < n ==> s@[j] != c,
        decreases b,
    {
        b = b - 1;
    }
    proof {
        lemma_after_last(s@, c, b as int);
    }
    s.substring_char(b, n)
}

/// The decimal digit character for `d < 10`.
pub open spec fn digit_char(d: nat) -> char {
    if d == 0 { '0' }
    else if d == 1 { '1' }
    else if d == 2 { '2' }
    else if d == 3 { '3' }
    else if d == 4 { '4' }
    else if d == 5 { '5' }
    else if d == 6 { '6' }
    else if d == 7 { '7' }
    else if d == 8 { '8' }
    else { '9' }
}

/// The decimal representation of `n`, without leading zeros.
pub open spec fn decimal(n: nat) -> Seq<char>
    decreases n,
{
    if n < 10 {
        seq![digit_char(n)]
    } else {
        decimal(n / 10).push(digit_char(n % 10))
    }
}

fn digit_str(d: usize) -> (r: &'static str)
    requires
        d < 10,
    ensures
        r@ == seq![digit_char(d as nat)],
{
    proof {
        reveal_strlit("0");
        reveal_strlit("1");
        reveal_strlit("2");
        reveal_strlit("3");
        reveal_strlit("4");
        reveal_strlit("5");
        reveal_strlit("6");
        reveal_strlit("7");
        reveal_strlit("8");
        reveal_strlit("9");
    }
    let r = if d == 0 { "0" }
    else if d == 1 { "1" }
    else if d == 2 { "2" }
    else if d == 3 { "3" }
    else if d == 4 { "4" }
    else if d == 5 { "5" }
    else if d == 6 { "6" }
    else if d == 7 { "7" }
    else if d == 8 { "8" }
    else { "9" };
    assert(r@ =~= seq![digit_char(d as nat)]);
    r
}

/// The decimal representation of `n` (`usize::to_string`).
pub fn decimal_string(n: usize) -> (r: String)
    ensures
        r@ == decimal(n as nat),
    decreases n,
{
    if n < 10 {
        String::from_str(digit_str(n))
    } else {
        let head = decimal_string(n / 10);
        let r = head.concat(digit_str(n % 10));
        assert(r@ =~= decimal((n / 10) as nat).push(digit_char((n % 10) as nat)));
        r
    }
}

pub proof fn lemma_first_lf_props(s: Seq<char>)
    ensures
        first_lf(s) <= s.len(),
        forall|j: int| 0 <= j < first_lf(s) ==> s[j] != '\n',
        first_lf(s) < s.len() ==> s[first_lf(s) as int] == '\n',
    decreases s.len(),
{
    if s.len() > 0 && s[0] != '\n' {
        lemma_first_lf_props(s.drop_first());
        let t = s.drop_first();
        assert forall|j: int| 0 <= j < first_lf(s) implies s[j] != '\n' by {
            if j > 0 {
                assert(s[j] == t[j - 1]);
            }
        }
        if first_lf(s) < s.len() {
            assert(s[first_lf(s) as int] == t[first_lf(t) as int]);
        }
    }
}

/// Whether `s` is empty or ends with a line feed.
pub open spec fn ends_line(s: Seq<char>) -> bool {
    s.len() == 0 || s.last() == '\n'
}

/// Whether `s` holds no line feed.
pub open spec fn no_lf(s: Seq<char>) -> bool {
    forall|j: int| 0 <= j < s.len() ==> s[j] != '\n'
}

pub proof fn lemma_lines_append(a: Seq<char>, b: Seq<char>)
    requires
        ends_line(a),
    ensures
        lines_of(a + b) == lines_of(a) + lines_of(b),
    decreases a.len(),
{
    if a.len() == 0 {
        assert(a + b =~= b);
        assert(lines_of(a) + lines_of(b) =~= lines_of(b));
    } else {
        lemma_first_lf_props(a);
        let k = first_lf(a) as int;
        if k == a.len() {
            assert(a[a.len() - 1] != '\n');
        }
        assert(k < a.len());
        let ab = a + b;
        assert forall|j: int| 0 <= j < k implies ab[j] != '\n' by {
            assert(ab[j] == a[j]);
        }
        assert(ab[k] == a[k]);
        lemma_first_lf(ab, k);
        assert(ab.take(k) =~= a.take(k));
        let rest = a.skip(k + 1);
        assert(ab.skip(k + 1) =~= rest + b);
        if rest.len() > 0 {
            assert(rest.last() == a.last());
        }
        lemma_lines_append(rest, b);
        assert(lines_of(ab) == seq![strip_cr(a.take(k))] + lines_of(rest + b));
        assert(lines_of(a) == seq![strip_cr(a.take(k))] + lines_of(rest));
        assert(lines_of(ab) =~= lines_of(a) + lines_of(b));
    }
}

/// Ending a last line with a line feed keeps the lines, but for one
/// carriage return that the line feed takes off the last of them.
pub proof fn lemma_lines_push_lf(c: Seq<char>)
    requires
        !ends_line(c),
    ensures
        lines_of(c).len() > 0,
        lines_of(c).last().len() > 0,
        lines_of(c).last().last() == c.last(),
        lines_of(c.push('\n')) == lines_of(c).drop_last().push(strip_cr(lines_of(c).last())),
    decreases c.len(),
{
    lemma_first_lf_props(c);
    let k = first_lf(c) as int;
    let d = c.push('\n');
    assert forall|j: int| 0 <= j < k implies d[j] != '\n' by {
        assert(d[j] == c[j]);
    }
    if k >= c.len() {
        assert(d[c.len() as int] == '\n');
        lemma_first_lf(d, c.len() as int);
        assert(d.take(c.len() as int) =~= c);
        let tail = d.skip(c.len() + 1 as int);
        assert(tail =~= Seq::<char>::empty());
        assert(lines_of(tail) =~= Seq::<Seq<char>>::empty());
        assert(lines_of(c) == seq![c]);
        assert(lines_of(d) == seq![strip_cr(c)] + lines_of(tail));
        assert(lines_of(d) =~= lines_of(c).drop_last().push(strip_cr(lines_of(c).last())));
    } else {
        assert(d[k] == c[k]);
        lemma_first_lf(d, k);
        assert(d.take(k) =~= c.take(k));
        let rest = c.skip(k + 1);
        assert(rest.len() > 0) by {
            if rest.len() == 0 {
                assert(k == c.len() - 1);
            }
        }
        assert(rest.last() == c.last());
        assert(d.skip(k + 1) =~= rest.push('\n'));
        lemma_lines_push_lf(rest);
        let h = seq![strip_cr(c.take(k))];
        assert(lines_of(c) == h + lines_of(rest));
        assert(lines_of(d) == h + lines_of(rest.push('\n')));
        assert(lines_of(c).last() == lines_of(rest).last());
        assert(lines_of(d) =~= lines_of(c).drop_last().push(strip_cr(lines_of(c).last())));
    }
}

/// Whether `l` ends with a carriage return.
pub open spec fn ends_cr(l: Seq<char>) -> bool {
    l.len() > 0 && l.last() == '\r'
}

/// Lines joined by line feeds read back as the same lines, when none holds
/// a line feed or ends with a carriage return and the last is not empty.
pub proof fn lemma_lines_of_join_exact(ls: Seq<Seq<char>>)
    requires
        forall|j: int| 0 <= j < ls.len() ==> no_lf(#[trigger] ls[j]),
        forall|j: int| 0 <= j < ls.len() ==> !ends_cr(#[trigger] ls[j]),
        ls.len() == 0 || ls.last().len() > 0,
    ensures
        lines_of(join_with(ls, seq!['\n'])) == ls,
    decreases ls.len(),
{
    let nl = seq!['\n'];
    let joined = join_with(ls, nl);
    if ls.len() == 0 {
        assert(lines_of(joined) =~= ls);
    } else if ls.len() == 1 {
        let l0 = ls[0];
        assert(no_lf(l0));
        lemma_first_lf(l0, l0.len() as int);
        assert(lines_of(joined) =~= ls);
    } else {
        let l0 = ls[0];
        let rest = ls.drop_first();
        assert forall|j: int| 0 <= j < rest.len() implies no_lf(#[trigger] rest[j]) by {
            assert(rest[j] == ls[j + 1]);
        }
        assert forall|j: int| 0 <= j < rest.len() implies !ends_cr(#[trigger] rest[j]) by {
            assert(rest[j] == ls[j + 1]);
        }
        assert(rest.last() == ls.last());
        lemma_lines_of_join_exact(rest);
        let jr = join_with(rest, nl);
        assert(joined == l0 + nl + jr);
        assert(no_lf(ls[0]));
        assert forall|j: int| 0 <= j < l0.len() implies joined[j] != '\n' by {
            assert(joined[j] == l0[j]);
        }
        assert(joined[l0.len() as int] == '\n');
        lemma_first_lf(joined, l0.len() as int);
        assert(joined.take(l0.len() as int) =~= l0);
        assert(joined.skip(l0.len() + 1 as int) =~= jr);
        assert(!ends_cr(ls[0]));
        assert(strip_cr(l0) == l0);
        assert(lines_of(joined) == seq![l0] + lines_of(jr));
        assert(lines_of(joined) =~= ls);
    }
}

pub proof fn lemma_lines_one(e: Seq<char>)
    requires
        no_lf(e),
    ensures
        lines_of(e + seq!['\n']) == seq![strip_cr(e)],
{
    let s = e + seq!['\n'];
    assert forall|j: int| 0 <= j < e.len() implies s[j] != '\n' by {
        assert(s[j] == e[j]);
    }
    assert(s[e.len() as int] == '\n');
    lemma_first_lf(s, e.len() as int);
    assert(s.take(e.len() as int) =~= e);
    let tail = s.skip(e.len() + 1 as int);
    assert(tail =~= Seq::<char>::empty());
    assert(lines_of(tail) =~= Seq::<Seq<char>>::empty());
    assert(lines_of(s) == seq![strip_cr(s.take(e.len() as int))] + lines_of(tail));
    assert(seq![strip_cr(e)] + Seq::<Seq<char>>::empty() =~= seq![strip_cr(e)]);
}

pub proof fn lemma_lines_no_lf(s: Seq<char>)
    ensures
        forall|i: int| 0 <= i < lines_of(s).len() ==> no_lf(#[trigger] lines_of(s)[i]),
    decreases s.len(),
{
    if s.len() > 0 {
        lemma_first_lf_props(s);
        let k = first_lf(s) as int;
        if k >= s.len() {
            assert(lines_of(s) == seq![s]);
        } else {
            lemma_lines_no_lf(s.skip(k + 1));
            let head = strip_cr(s.take(k));
            assert(no_lf(head)) by {
                assert forall|j: int| 0 <= j < head.len() implies head[j] != '\n' by {
                    assert(head[j] == s[j]);
                }
            }
            assert forall|i: int| 0 <= i < lines_of(s).len() implies no_lf(
                #[trigger] lines_of(s)[i],
            ) by {
                if i > 0 {
                    assert(lines_of(s)[i] == lines_of(s.skip(k + 1))[i - 1]);
                }
            }
        }
    }
}

pub proof fn lemma_trim_start_push(x: Seq<char>, c: char)
    ensures
        trim_start(x.push(c)) == (if trim_start(x).len() == 0 {
            trim_start(seq![c])
        } else {
            trim_start(x).push(c)
        }),
    decreases x.len(),
{
    if x.len() == 0 {
        assert(x.push(c) =~= seq![c]);
    } else if is_ws(x[0]) {
        lemma_trim_start_push(x.drop_first(), c);
        assert(x.push(c).drop_first() =~= x.drop_first().push(c));
        assert(x.push(c)[0] == x[0]);
    } else {
        assert(x.push(c)[0] == x[0]);
    }
}

pub proof fn lemma_trim_push_ws(x: Seq<char>, c: char)
    requires
        is_ws(c),
    ensures
        trim(x.push(c)) == trim(x),
{
    lemma_trim_start_push(x, c);
    let ts = trim_start(x);
    if ts.len() == 0 {
        let one = seq![c];
        assert(one.len() == 1 && one[0] == c);
        assert(one.drop_first() =~= Seq::<char>::empty());
        assert(trim_start(one) == trim_start(one.drop_first()));
        assert(trim_start(one) =~= Seq::<char>::empty());
    } else {
        let u = ts.push(c);
        assert(u.last() == c);
        assert(u.drop_last() =~= ts);
    }
}

pub proof fn lemma_trim_strip_cr(l: Seq<char>)
    ensures
        trim(strip_cr(l)) == trim(l),
{
    if l.len() > 0 && l.last() == '\r' {
        assert(l.drop_last().push('\r') =~= l);
        lemma_trim_push_ws(l.drop_last(), '\r');
    }
}

pub proof fn lemma_lines_of_join(ls: Seq<Seq<char>>)
    requires
        forall|j: int| 0 <= j < ls.len() ==> no_lf(#[trigger] ls[j]),
    ensures
        forall|i: int|
            0 <= i < lines_of(join_with(ls, seq!['\n'])).len() ==> exists|j: int|
                0 <= j < ls.len() && trim(#[trigger] lines_of(join_with(ls, seq!['\n']))[i]) == trim(
                    ls[j],
                ),
        forall|j: int|
            0 <= j < ls.len() && trim(#[trigger] ls[j]).len() > 0 ==> exists|i: int|
                0 <= i < lines_of(join_with(ls, seq!['\n'])).len() && trim(
                    lines_of(join_with(ls, seq!['\n']))[i],
                ) == trim(ls[j]),
    decreases ls.len(),
{
    let nl = seq!['\n'];
    let joined = join_with(ls, nl);
    if ls.len() == 0 {
        assert(lines_of(joined).len() == 0);
    } else if ls.len() == 1 {
        let l0 = ls[0];
        assert(joined == l0);
        if l0.len() == 0 {
            assert(lines_of(joined).len() == 0);
            assert(trim_start(l0) == l0);
        } else {
            lemma_first_lf(l0, l0.len() as int);
            assert(lines_of(joined) == seq![l0]);
            assert forall|i: int| 0 <= i < lines_of(joined).len() implies exists|j: int|
                0 <= j < ls.len() && trim(#[trigger] lines_of(joined)[i]) == trim(ls[j]) by {
                assert(lines_of(joined)[i] == ls[0]);
            }
            assert forall|j: int| 0 <= j < ls.len() && trim(#[trigger] ls[j]).len() > 0 implies exists|
                i: int,
            |
                0 <= i < lines_of(joined).len() && trim(lines_of(joined)[i]) == trim(ls[j]) by {
                assert(lines_of(joined)[0] == ls[0]);
            }
        }
    } else {
        let l0 = ls[0];
        let rest = ls.drop_first();
        assert forall|j: int| 0 <= j < rest.len() implies no_lf(#[trigger] rest[j]) by {
            assert(rest[j] == ls[j + 1]);
        }
        lemma_lines_of_join(rest);
        let jr = join_with(rest, nl);
        assert(joined == l0 + nl + jr);
        assert forall|j: int| 0 <= j < l0.len() implies joined[j] != '\n' by {
            assert(joined[j] == l0[j]);
            assert(no_lf(ls[0]));
        }
        assert(joined[l0.len() as int] == '\n');
        lemma_first_lf(joined, l0.len() as int);
        assert(joined.take(l0.len() as int) =~= l0);
        assert(joined.skip(l0.len() + 1 as int) =~= jr);
        let lines = lines_of(joined);
        assert(lines == seq![strip_cr(l0)] + lines_of(jr));
        lemma_trim_strip_cr(l0);
        assert forall|i: int| 0 <= i < lines.len() implies exists|j: int|
            0 <= j < ls.len() && trim(#[trigger] lines[i]) == trim(ls[j]) by {
            if i == 0 {
                assert(trim(lines[0]) == trim(ls[0]));
            } else {
                assert(lines[i] == lines_of(jr)[i - 1]);
                let j = choose|j: int| 0 <= j < rest.len() && trim(lines_of(jr)[i - 1]) == trim(rest[j]);
                assert(rest[j] == ls[j + 1]);
            }
        }
        assert forall|j: int| 0 <= j < ls.len() && trim(#[trigger] ls[j]).len() > 0 implies exists|
            i: int,
        | 0 <= i < lines.len() && trim(lines[i]) == trim(ls[j]) by {
            if j == 0 {
                assert(trim(lines[0]) == trim(ls[0]));
            } else {
                assert(rest[j - 1] == ls[j]);
                assert(trim(rest[j - 1]).len() > 0);
                let i = choose|i: int|
                    0 <= i < lines_of(jr).len() && trim(lines_of(jr)[i]) == trim(rest[j - 1]);
                assert(lines[i + 1] == lines_of(jr)[i]);
            }
        }
    }
}

} // verus!
