//! The clean-up that git applies to a note's text when the note is added:
//! trailing white space is cut from every line, blank lines at the start
//! and the end are dropped, each run of blank lines inside becomes one, and
//! every line, the last included, ends with a line feed.
use crate::lines::{char_views, is_white_space, split_chars, split_on, trim_end, trimmed_len};
use crate::text::{chars_of, string_from_chars};
use vstd::prelude::*;

verus! {

/// The white space that git cuts from line ends.
pub open spec fn is_git_space(c: char) -> bool {
    c == ' ' || c == '\t' || c == '\n' || c == '\r'
}

/// `line` without its trailing git white space.
pub open spec fn cut_end(line: Seq<char>) -> Seq<char>
    decreases line.len(),
{
    if line.len() > 0 && is_git_space(line.last()) {
        cut_end(line.drop_last())
    } else {
        line
    }
}

/// The cleaned text so far, and whether blank lines wait to be written.
pub struct CleanState {
    pub out: Seq<char>,
    pub blank: bool,
}

/// Cleans one more line.
pub open spec fn clean_step(st: CleanState, line: Seq<char>) -> CleanState {
    let t = cut_end(line);
    if t.len() == 0 {
        CleanState { out: st.out, blank: true }
    } else {
        CleanState {
            out: (if st.blank && st.out.len() > 0 {
                st.out.push('\n')
            } else {
                st.out
            }) + t.push('\n'),
            blank: false,
        }
    }
}

/// Cleans the lines in turn.
pub open spec fn clean_run(lines: Seq<Seq<char>>) -> CleanState
    decreases lines.len(),
{
    if lines.len() == 0 {
        CleanState { out: Seq::empty(), blank: false }
    } else {
        clean_step(clean_run(lines.drop_last()), lines.last())
    }
}

/// The text that git stores for a note written as `text`.
pub open spec fn stripspace(text: Seq<char>) -> Seq<char> {
    clean_run(split_on(text, '\n')).out
}

/// `s` without its leading white space.
pub open spec fn trim_start(s: Seq<char>) -> Seq<char>
    decreases s.len(),
{
    if s.len() > 0 && is_white_space(s[0]) {
        trim_start(s.drop_first())
    } else {
        s
    }
}

/// `s` without white space at either end.
pub open spec fn trim(s: Seq<char>) -> Seq<char> {
    trim_start(trim_end(s))
}

/// Whether `c` is git white space.
fn git_space(c: char) -> (b: bool)
    ensures
        b == is_git_space(c),
{
    c == ' ' || c == '\t' || c == '\n' || c == '\r'
}

/// The length of `line` without its trailing git white space.
fn cut_len(line: &[char]) -> (n: usize)
    ensures
        n <= line@.len(),
        line@.take(n as int) == cut_end(line@),
{
    let mut n = line.len();
    assert(line@.take(n as int) =~= line@);
    while n > 0 && git_space(line[n - 1])
        invariant
            n <= line@.len(),
            cut_end(line@.take(n as int)) == cut_end(line@),
        decreases n,
    {
        assert(line@.take(n as int).drop_last() =~= line@.take(n - 1));
        n = n - 1;
    }
    n
}

/// The text that git stores for a note written as `text`.
pub fn clean_note(text: &str) -> (out: String)
    ensures
        out@ == stripspace(text@),
{
    let chars = chars_of(text);
    let lines = split_chars(&chars, '\n');
    let ghost lv = split_on(text@, '\n');
    let mut out: Vec<char> = Vec::new();
    let mut blank = false;
    let mut i: usize = 0;
    while i < lines.len()
        invariant
            char_views(lines@) == lv,
            lv == split_on(text@, '\n'),
            i <= lines@.len(),
            clean_run(lv.take(i as int)) == (CleanState { out: out@, blank }),
        decreases lines@.len() - i,
    {
        assert(lv.take(i + 1).drop_last() =~= lv.take(i as int));
        assert(lv[i as int] == lines@[i as int]@);
        let line = &lines[i];
        let n = cut_len(line);
        if n > 0 {
            if blank && out.len() > 0 {
                out.push('\n');
            }
            let ghost mid = out@;
            let mut k: usize = 0;
            while k < n
                invariant
                    n <= line@.len(),
                    k <= n,
                    out@ == mid + line@.take(k as int),
                decreases n - k,
            {
                out.push(line[k]);
                assert(out@ =~= mid + line@.take(k + 1));
                k = k + 1;
            }
            out.push('\n');
            assert(out@ =~= mid + cut_end(line@).push('\n'));
            blank = false;
        } else {
            blank = true;
        }
        i = i + 1;
    }
    assert(lv.take(i as int) =~= lv);
    string_from_chars(&out)
}

/// `text` without white space at either end.
pub fn trim_text(text: &str) -> (out: String)
    ensures
        out@ == trim(text@),
{
    let chars = chars_of(text);
    let n = trimmed_len(&chars);
    let mut k: usize = 0;
    let ghost t = chars@.take(n as int);
    assert(t.skip(0) =~= t);
    while k < n && crate::lines::white_space(chars[k])
        invariant
            n <= chars@.len(),
            t == chars@.take(n as int),
            k <= n,
            trim_start(t.skip(k as int)) == trim_start(t),
        decreases n - k,
    {
        assert(t.skip(k as int).drop_first() =~= t.skip(k + 1));
        k = k + 1;
    }
    if k < n {
        assert(t.skip(k as int)[0] == chars@[k as int]);
    }
    let kept = crate::lines::sub_chars(&chars, k, n);
    assert(kept@ =~= t.skip(k as int));
    string_from_chars(&kept)
}

} // verus!

verus! {

/// No line of `t` ends in git white space.
pub open spec fn lines_end_clean(t: Seq<char>) -> bool {
    forall|k: int| 0 <= k < split_on(t, '\n').len() ==> cut_end(#[trigger] split_on(t, '\n')[k]) == split_on(t, '\n')[k]
}

/// `t` has no two blank lines in a row.
pub open spec fn no_double_blank(t: Seq<char>) -> bool {
    forall|k: int|
        0 <= k && k + 1 < split_on(t, '\n').len() ==> !(#[trigger] split_on(t, '\n')[k].len() == 0 && split_on(
            t,
            '\n',
        )[k + 1].len() == 0)
}

/// Joining the pieces between line feeds gives the text back.
pub proof fn lemma_join_split(t: Seq<char>)
    ensures
        crate::lines::join_lines(split_on(t, '\n')) == t,
    decreases t.len(),
{
    crate::lines::lemma_split_nonempty(t, '\n');
    if t.len() > 0 {
        let s = t.drop_last();
        let before = split_on(s, '\n');
        lemma_join_split(s);
        crate::lines::lemma_split_nonempty(s, '\n');
        if t.last() == '\n' {
            let after = before.push(Seq::<char>::empty());
            assert(after.drop_last() =~= before);
            assert(crate::lines::join_lines(after) =~= t);
        } else {
            let after = before.update(before.len() - 1, before.last().push(t.last()));
            assert(after.drop_last() =~= before.drop_last());
            if before.len() == 1 {
                assert(crate::lines::join_lines(after) =~= t);
            } else {
                let a = crate::lines::join_lines(before.drop_last()).push('\n');
                assert(crate::lines::join_lines(before) == a + before.last());
                assert(after.last() == before.last().push(t.last()));
                assert(crate::lines::join_lines(after) == a + before.last().push(t.last()));
                assert(a + before.last().push(t.last()) =~= (a + before.last()).push(t.last()));
                assert(s.push(t.last()) =~= t);
            }
        }
    }
}

/// How cleaning runs over lines that end clean, with no two blank lines in
/// a row: the text so far, without a leading line feed, plus a line feed.
proof fn lemma_clean_prefix(p: Seq<Seq<char>>, k: int)
    requires
        0 <= k <= p.len(),
        forall|j: int| 0 <= j < p.len() ==> cut_end(#[trigger] p[j]) == p[j],
        forall|j: int| 0 <= j && j + 1 < p.len() ==> !(#[trigger] p[j].len() == 0 && p[j + 1].len() == 0),
    ensures
        k == 0 ==> clean_run(p.take(k)) == (CleanState { out: Seq::empty(), blank: false }),
        k == 1 && p[0].len() == 0 ==> clean_run(p.take(k)) == (CleanState { out: Seq::empty(), blank: true }),
        (k == 1 && p[0].len() > 0) || (k >= 2 && p[k - 1].len() > 0) ==> clean_run(p.take(k)) == (CleanState {
            out: crate::lines::join_lines(p.take(k)).skip(if p[0].len() == 0 { 1int } else { 0int }).push('\n'),
            blank: false,
        }),
        k >= 2 && p[k - 1].len() == 0 ==> clean_run(p.take(k)) == (CleanState {
            out: crate::lines::join_lines(p.take(k - 1)).skip(if p[0].len() == 0 { 1int } else { 0int }).push('\n'),
            blank: true,
        }),
    decreases k,
{
    if k > 0 {
        lemma_clean_prefix(p, k - 1);
        let q = p[k - 1];
        assert(p.take(k).drop_last() =~= p.take(k - 1));
        assert(p.take(k).last() == q);
        assert(cut_end(q) == q);
        let lead: int = if p[0].len() == 0 { 1 } else { 0 };
        if k == 1 {
            assert(p.take(1) =~= seq![q]);
            if q.len() > 0 {
                assert(crate::lines::join_lines(p.take(1)) == q);
                assert(q.skip(0) =~= q);
                assert(Seq::<char>::empty() + q.push('\n') =~= q.push('\n'));
            }
        } else {
            let jk = crate::lines::join_lines(p.take(k));
            let jp = crate::lines::join_lines(p.take(k - 1));
            assert(jk == jp.push('\n') + q);
            if q.len() > 0 {
                if k == 2 {
                    if p[0].len() == 0 {
                        assert(jp == p[0]);
                        assert(jk.skip(1) =~= q);
                        assert(Seq::<char>::empty() + q.push('\n') =~= jk.skip(1).push('\n'));
                    } else {
                        assert(jp == p[0]);
                        assert(jk.skip(0) =~= jk);
                        assert(jp.skip(0).push('\n') + q.push('\n') =~= jk.push('\n'));
                    }
                } else if p[k - 2].len() > 0 {
                    assert(jp.skip(lead).push('\n') + q.push('\n') =~= jk.skip(lead).push('\n'));
                } else {
                    assert(p[k - 3].len() > 0 || k - 3 < 0);
                    let jpp = crate::lines::join_lines(p.take(k - 2));
                    assert(p.take(k - 1).drop_last() =~= p.take(k - 2));
                    assert(p.take(k - 1).last() == p[k - 2]);
                    assert(jp == jpp.push('\n') + p[k - 2]);
                    assert(jpp.skip(lead).push('\n').push('\n') + q.push('\n') =~= jk.skip(lead).push('\n'));
                }
            } else {
                assert(p[k - 2].len() > 0);
            }
        }
    }
}

/// A text whose lines end clean and that has no two blank lines in a row
/// reads back, after cleaning and trimming, as the text trimmed.
pub proof fn lemma_clean_then_trim(t: Seq<char>)
    requires
        lines_end_clean(t),
        no_double_blank(t),
    ensures
        trim(stripspace(t)) == trim(t),
        trim(t).len() > 0 ==> stripspace(t).len() > 0,
{
    let p = split_on(t, '\n');
    crate::lines::lemma_split_nonempty(t, '\n');
    lemma_join_split(t);
    assert forall|j: int| 0 <= j < p.len() implies cut_end(#[trigger] p[j]) == p[j] by {
    }
    assert forall|j: int| 0 <= j && j + 1 < p.len() implies !(#[trigger] p[j].len() == 0 && p[j + 1].len() == 0) by {
    }
    let n = p.len() as int;
    lemma_clean_prefix(p, n);
    assert(p.take(n) =~= p);
    let lead: int = if p[0].len() == 0 { 1 } else { 0 };
    if n == 1 {
        assert(p.take(1) =~= seq![p[0]]);
        assert(t == p[0]);
        if p[0].len() == 0 {
            assert(t =~= Seq::<char>::empty());
            assert(stripspace(t) =~= Seq::<char>::empty());
        } else {
            assert(p[0].skip(0) =~= p[0]);
            lemma_trim_drop_end_space(t);
        }
    } else {
        let full = crate::lines::join_lines(p);
        if p[n - 1].len() > 0 {
            lemma_trim_drop_end_space(full.skip(lead));
            lemma_join_start(p);
            lemma_trim_skip_lead(full, lead);
        } else {
            let jp = crate::lines::join_lines(p.take(n - 1));
            assert(p.drop_last() =~= p.take(n - 1));
            assert(full == jp.push('\n') + p[n - 1]);
            assert(full =~= jp.push('\n'));
            lemma_trim_drop_end_space(jp.skip(lead));
            if lead == 1 {
                assert(n >= 3);
                lemma_join_start(p.take(n - 1));
            }
            lemma_trim_skip_lead(jp, lead);
            lemma_trim_drop_end_space(jp);
            if n == 2 {
                assert(p[0].len() > 0);
            }
            assert(jp.skip(lead).push('\n').len() > 0);
        }
        assert(stripspace(t).len() > 0);
    }
}

/// Joined lines start with the first line and a line feed.
proof fn lemma_join_start(ls: Seq<Seq<char>>)
    requires
        ls.len() >= 2,
    ensures
        crate::lines::join_lines(ls).len() > ls[0].len(),
        crate::lines::join_lines(ls)[ls[0].len() as int] == '\n',
    decreases ls.len(),
{
    let d = ls.drop_last();
    let j = crate::lines::join_lines(ls);
    let jd = crate::lines::join_lines(d);
    assert(j == jd.push('\n') + ls.last());
    if ls.len() > 2 {
        lemma_join_start(d);
        assert(d[0] == ls[0]);
        assert(j[ls[0].len() as int] == jd[ls[0].len() as int]);
    } else {
        assert(d =~= seq![ls[0]]);
        assert(jd == ls[0]);
        assert(j[ls[0].len() as int] == jd.push('\n')[ls[0].len() as int]);
    }
}

/// A line feed at the end makes no difference to trimming.
proof fn lemma_trim_drop_end_space(s: Seq<char>)
    ensures
        trim(s.push('\n')) == trim(s),
        trim_end(s.push('\n')) == trim_end(s),
{
    assert(s.push('\n').drop_last() =~= s);
}

/// A leading line feed makes no difference to trimming.
proof fn lemma_trim_skip_lead(s: Seq<char>, lead: int)
    requires
        lead == 0 || (lead == 1 && s.len() > 0 && s[0] == '\n'),
    ensures
        trim(s.skip(lead)) == trim(s),
{
    if lead == 1 {
        lemma_trim_end_front(s);
        let r = trim_end(s.skip(1));
        if r.len() > 0 {
            assert(trim_end(s) == seq![s[0]] + r);
            assert((seq![s[0]] + r).drop_first() =~= r);
        }
    } else {
        assert(s.skip(0) =~= s);
    }
}

/// How trimming the end treats the first character.
proof fn lemma_trim_end_front(s: Seq<char>)
    requires
        s.len() > 0,
        s[0] == '\n',
    ensures
        trim_end(s.skip(1)).len() > 0 ==> trim_end(s) == seq![s[0]] + trim_end(s.skip(1)),
        trim_end(s.skip(1)).len() == 0 ==> trim_end(s).len() == 0,
    decreases s.len(),
{
    if s.len() == 1 {
        assert(s.skip(1) =~= Seq::<char>::empty());
        assert(s.drop_last() =~= Seq::<char>::empty());
    } else {
        let d = s.drop_last();
        assert(d.skip(1) =~= s.skip(1).drop_last());
        assert(s.skip(1).last() == s.last());
        if is_white_space(s.last()) {
            lemma_trim_end_front(d);
        } else {
            assert(seq![s[0]] + s.skip(1) =~= s);
        }
    }
}

} // verus!
