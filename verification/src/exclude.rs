//! Editing the text of `.git/info/exclude`: an entry is present when some
//! line, trimmed, equals it; adding appends it on a line of its own (ending
//! an unfinished last line first); removing drops every line that trims to
//! it.
use vstd::prelude::*;
use vstd::string::*;
use crate::text::{
    trim, strip_cr, lines_of, join_with, split_lines, join_strings, trim_str, str_eq, ends_line,
    no_lf, ends_cr, lemma_lines_append, lemma_lines_one, lemma_lines_no_lf, lemma_trim_strip_cr,
    lemma_lines_of_join, lemma_lines_of_join_exact, lemma_lines_push_lf,
};
use crate::model::lemma_filter_all;

verus! {

/// Whether some line of `content`, trimmed, equals `entry`.
pub open spec fn has_entry(content: Seq<char>, entry: Seq<char>) -> bool {
    exists|i: int| 0 <= i < lines_of(content).len() && trim(#[trigger] lines_of(content)[i]) == entry
}

/// `content` with its last line ended by a line feed: unchanged when it is
/// empty or already ends with one.
pub open spec fn line_ended(content: Seq<char>) -> Seq<char> {
    if ends_line(content) {
        content
    } else {
        content.push('\n')
    }
}

/// The content after adding `entry`: unchanged when it is present, else
/// with `entry` on a line of its own after the last line.
pub open spec fn with_entry(content: Seq<char>, entry: Seq<char>) -> Seq<char> {
    if has_entry(content, entry) {
        content
    } else {
        line_ended(content) + entry + seq!['\n']
    }
}

/// Whether a line is kept when `entry` is removed.
pub open spec fn keeps(entry: Seq<char>) -> spec_fn(Seq<char>) -> bool {
    |l: Seq<char>| trim(l) != entry
}

/// The content after removing `entry`: the lines that do not trim to it,
/// joined by line feeds.
pub open spec fn without_entry(content: Seq<char>, entry: Seq<char>) -> Seq<char> {
    join_with(lines_of(content).filter(keeps(entry)), seq!['\n'])
}

/// Whether some line of `content`, trimmed, equals `entry`.
pub fn exclude_has_entry(content: &str, entry: &str) -> (r: bool)
    ensures
        r == has_entry(content@, entry@),
{
    let lines = split_lines(content);
    let n = lines.len();
    let mut i: usize = 0;
    while i < n
        invariant
            n == lines.len(),
            lines.deep_view() == lines_of(content@),
            i <= n,
            forall|j: int| 0 <= j < i ==> trim(#[trigger] lines_of(content@)[j]) != entry@,
        decreases n - i,
    {
        assert(lines.deep_view()[i as int] == lines[i as int]@);
        if str_eq(trim_str(lines[i].as_str()), entry) {
            return true;
        }
        i = i + 1;
    }
    false
}

/// The exclude content after adding `entry`.
pub fn exclude_add(content: &str, entry: &str) -> (r: String)
    ensures
        r@ == with_entry(content@, entry@),
{
    if exclude_has_entry(content, entry) {
        return String::from_str(content);
    }
    let mut out = String::from_str(content);
    proof {
        reveal_strlit("\n");
    }
    let n = content.unicode_len();
    if n > 0 && content.get_char(n - 1) != '\n' {
        out.append("\n");
    }
    assert(out@ =~= line_ended(content@));
    out.append(entry);
    out.append("\n");
    assert(out@ =~= line_ended(content@) + entry@ + seq!['\n']);
    out
}

/// The exclude content after removing `entry`.
pub fn exclude_remove(content: &str, entry: &str) -> (r: String)
    ensures
        r@ == without_entry(content@, entry@),
{
    let lines = split_lines(content);
    let n = lines.len();
    let mut kept: Vec<String> = Vec::new();
    let ghost all = lines_of(content@);
    let mut i: usize = 0;
    while i < n
        invariant
            n == lines.len(),
            lines.deep_view() == all,
            i <= n,
            kept.deep_view() == all.take(i as int).filter(keeps(entry@)),
        decreases n - i,
    {
        let ghost prev = kept.deep_view();
        let line = lines[i].as_str();
        assert(all[i as int] == lines[i as int]@);
        let ghost t = all.take(i + 1);
        assert(t.drop_last() =~= all.take(i as int));
        assert(t.last() == line@);
        reveal(Seq::filter);
        assert(t.filter(keeps(entry@)) == if keeps(entry@)(t.last()) {
            t.drop_last().filter(keeps(entry@)).push(t.last())
        } else {
            t.drop_last().filter(keeps(entry@))
        });
        if !str_eq(trim_str(line), entry) {
            kept.push(String::from_str(line));
            assert(kept.deep_view() =~= prev.push(line@));
        }
        i = i + 1;
    }
    assert(all.take(n as int) =~= all);
    proof {
        reveal_strlit("\n");
    }
    assert("\n"@ =~= seq!['\n']);
    join_strings(&kept, "\n")
}

/// An entry that a single line holds and that trimming leaves as it is.
pub open spec fn clean_entry(e: Seq<char>) -> bool {
    no_lf(e) && trim(e) == e
}

/// Ending the last line keeps which entries are present, and keeps the
/// lines themselves when the content does not end with a carriage return.
proof fn lemma_line_ended(c: Seq<char>)
    ensures
        ends_line(line_ended(c)),
        forall|x: Seq<char>| #[trigger] has_entry(line_ended(c), x) == has_entry(c, x),
        !ends_cr(c) ==> lines_of(line_ended(c)) == lines_of(c),
{
    if !ends_line(c) {
        lemma_lines_push_lf(c);
        let a = lines_of(c);
        let b = lines_of(line_ended(c));
        let m = a.len() - 1;
        lemma_trim_strip_cr(a.last());
        assert(b.len() == a.len());
        assert forall|i: int| 0 <= i < a.len() implies trim(#[trigger] b[i]) == trim(a[i]) by {
            if i < m {
                assert(b[i] == a[i]);
            } else {
                assert(b[i] == strip_cr(a.last()));
            }
        }
        assert forall|x: Seq<char>| #[trigger] has_entry(line_ended(c), x) == has_entry(c, x) by {
            if has_entry(c, x) {
                let i = choose|i: int| 0 <= i < a.len() && trim(#[trigger] a[i]) == x;
                assert(trim(b[i]) == x);
            }
            if has_entry(line_ended(c), x) {
                let i = choose|i: int| 0 <= i < b.len() && trim(#[trigger] b[i]) == x;
                assert(trim(a[i]) == x);
            }
        }
        if !ends_cr(c) {
            assert(strip_cr(a.last()) == a.last());
            assert(b =~= a);
        }
    }
}

proof fn lemma_lines_after_add(c: Seq<char>, e: Seq<char>)
    requires
        clean_entry(e),
        ends_line(c),
    ensures
        lines_of(c + e + seq!['\n']) == lines_of(c) + seq![strip_cr(e)],
        trim(strip_cr(e)) == e,
{
    assert(c + e + seq!['\n'] =~= c + (e + seq!['\n']));
    lemma_lines_append(c, e + seq!['\n']);
    lemma_lines_one(e);
    lemma_trim_strip_cr(e);
}

/// Once added, an entry is present: it stands on a line of its own.
pub proof fn law_add_makes_present(c: Seq<char>, e: Seq<char>)
    requires
        clean_entry(e),
    ensures
        has_entry(with_entry(c, e), e),
{
    if !has_entry(c, e) {
        let le = line_ended(c);
        lemma_line_ended(c);
        lemma_lines_after_add(le, e);
        let ls = lines_of(with_entry(c, e));
        assert(ls[ls.len() - 1] == strip_cr(e));
    }
}

/// Adding the same entry twice changes nothing the second time.
pub proof fn law_add_idempotent(c: Seq<char>, e: Seq<char>)
    requires
        clean_entry(e),
    ensures
        with_entry(with_entry(c, e), e) == with_entry(c, e),
{
    law_add_makes_present(c, e);
}

/// Adding an entry keeps every entry that was present.
pub proof fn law_add_keeps_others(c: Seq<char>, e: Seq<char>, x: Seq<char>)
    requires
        clean_entry(e),
        has_entry(c, x),
    ensures
        has_entry(with_entry(c, e), x),
{
    if !has_entry(c, e) {
        let le = line_ended(c);
        lemma_line_ended(c);
        assert(has_entry(le, x));
        lemma_lines_after_add(le, e);
        let i = choose|i: int| 0 <= i < lines_of(le).len() && trim(#[trigger] lines_of(le)[i]) == x;
        assert(lines_of(with_entry(c, e))[i] == lines_of(le)[i]);
    }
}

proof fn lemma_kept_no_lf(c: Seq<char>, e: Seq<char>)
    ensures
        forall|j: int|
            0 <= j < lines_of(c).filter(keeps(e)).len() ==> no_lf(
                #[trigger] lines_of(c).filter(keeps(e))[j],
            ),
        forall|j: int|
            0 <= j < lines_of(c).filter(keeps(e)).len() ==> trim(
                #[trigger] lines_of(c).filter(keeps(e))[j],
            ) != e,
{
    broadcast use vstd::seq_lib::group_filter_ensures;

    let ls = lines_of(c);
    let kept = ls.filter(keeps(e));
    lemma_lines_no_lf(c);
    assert forall|j: int| 0 <= j < kept.len() implies no_lf(#[trigger] kept[j]) by {
        assert(kept.contains(kept[j]));
        ls.lemma_filter_contains_rev(keeps(e), kept[j]);
        let i = choose|i: int| 0 <= i < ls.len() && ls[i] == kept[j];
        assert(no_lf(ls[i]));
    }
    assert forall|j: int| 0 <= j < kept.len() implies trim(#[trigger] kept[j]) != e by {
        ls.lemma_filter_pred(keeps(e), j);
    }
}

/// After removal, an entry is absent.
pub proof fn law_remove_makes_absent(c: Seq<char>, e: Seq<char>)
    ensures
        !has_entry(without_entry(c, e), e),
{
    let kept = lines_of(c).filter(keeps(e));
    lemma_kept_no_lf(c, e);
    lemma_lines_of_join(kept);
    let out = lines_of(without_entry(c, e));
    assert forall|i: int| 0 <= i < out.len() implies trim(#[trigger] out[i]) != e by {
        let j = choose|j: int| 0 <= j < kept.len() && trim(out[i]) == trim(kept[j]);
        assert(trim(kept[j]) != e);
    }
}

/// Removing an entry keeps every other present entry that is not empty.
pub proof fn law_remove_keeps_others(c: Seq<char>, e: Seq<char>, x: Seq<char>)
    requires
        x != e,
        x.len() > 0,
        has_entry(c, x),
    ensures
        has_entry(without_entry(c, e), x),
{
    broadcast use vstd::seq_lib::group_filter_ensures;

    let ls = lines_of(c);
    let kept = ls.filter(keeps(e));
    let i = choose|i: int| 0 <= i < ls.len() && trim(#[trigger] ls[i]) == x;
    ls.lemma_filter_contains(keeps(e), i);
    let j = choose|j: int| 0 <= j < kept.len() && kept[j] == ls[i];
    lemma_kept_no_lf(c, e);
    lemma_lines_of_join(kept);
    assert(trim(kept[j]).len() > 0);
    let out = lines_of(without_entry(c, e));
    let k = choose|k: int| 0 <= k < out.len() && trim(out[k]) == trim(kept[j]);
    assert(trim(out[k]) == x);
}

/// Removing an entry just added gives what removing it from the content
/// before the addition gives, unless that content ends with a bare carriage
/// return, which the added line feed turns into a line end.
pub proof fn law_remove_undoes_add(c: Seq<char>, e: Seq<char>)
    requires
        clean_entry(e),
        !ends_cr(c),
    ensures
        without_entry(with_entry(c, e), e) == without_entry(c, e),
{
    if !has_entry(c, e) {
        let le = line_ended(c);
        lemma_line_ended(c);
        lemma_lines_after_add(le, e);
        let ls = lines_of(c);
        let last = seq![strip_cr(e)];
        Seq::filter_distributes_over_add(ls, last, keeps(e));
        reveal_with_fuel(Seq::filter, 2);
        assert(last.drop_last() =~= Seq::<Seq<char>>::empty());
        assert(last.filter(keeps(e)) =~= Seq::<Seq<char>>::empty());
        assert(ls.filter(keeps(e)) + last.filter(keeps(e)) =~= ls.filter(keeps(e)));
    }
}

/// Removing an entry right after adding it to content that did not hold it
/// gives back the same lines, unless a line ends with a carriage return or
/// the last line is empty, which rewriting the lines cannot keep.
pub proof fn law_remove_restores_lines(c: Seq<char>, e: Seq<char>)
    requires
        clean_entry(e),
        !has_entry(c, e),
        forall|i: int| 0 <= i < lines_of(c).len() ==> !ends_cr(#[trigger] lines_of(c)[i]),
        lines_of(c).len() == 0 || lines_of(c).last().len() > 0,
    ensures
        lines_of(without_entry(with_entry(c, e), e)) == lines_of(c),
{
    let ls = lines_of(c);
    if !ends_line(c) {
        lemma_lines_push_lf(c);
        assert(!ends_cr(ls[ls.len() - 1]));
    }
    law_remove_undoes_add(c, e);
    assert forall|i: int| 0 <= i < ls.len() implies keeps(e)(#[trigger] ls[i]) by {
        if trim(ls[i]) == e {
            assert(has_entry(c, e));
        }
    }
    lemma_filter_all(ls, keeps(e));
    lemma_lines_no_lf(c);
    lemma_lines_of_join_exact(ls);
}

} // verus!
