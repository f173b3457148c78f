//! Searching note text the way `git grep` does: line by line, with a basic
//! regular expression (see the `bre` module), skipping text that holds a NUL
//! character. The matching of a line against the written-out expression is
//! done by the `fancy-regex` engine.
use crate::bre::{all_ordinary, literal_pattern, translate};
use crate::lines::{char_views, split_chars, split_on};
use crate::text::{chars_of, string_from_chars};
use vstd::prelude::*;

verus! {

/// What the `fancy-regex` engine answers for `line` and the pattern
/// `pattern` in its syntax: whether the line has a match, or `None` when the
/// pattern does not compile or the engine gives up on the line.
pub uninterp spec fn regex_line_match(pattern: Seq<char>, line: Seq<char>) -> Option<bool>;

/// Whether `s` occurs in `line` as a run of consecutive characters.
pub open spec fn occurs_in(s: Seq<char>, line: Seq<char>) -> bool {
    exists|i: int| 0 <= i && i + s.len() <= line.len() && #[trigger] line.subrange(i, i + s.len()) == s
}

/// `fancy_regex::RegexBuilder::new(pattern).build()` and `Regex::is_match`:
/// whether `line` has a match of `pattern`; `None` when the pattern does not
/// compile or the match gives up (its backtracking or stack limit). In
/// general the engine's semantics are not stated; its result is named.
/// One case is stated: a pattern made only of the escapes `\x{..}` of the
/// characters of a text `s` (at most 1000 of them) parses into literals,
/// which the crate hands whole to the `regex` crate (no feature that needs
/// its own backtracking, far within the default size limits, case
/// sensitive by default), so it compiles, cannot give up, and matches
/// exactly the lines in which `s` occurs.
#[verifier::external_body]
fn regex_is_match(pattern: &str, line: &str) -> (r: Option<bool>)
    ensures
        r == regex_line_match(pattern@, line@),
        forall|s: Seq<char>|
            #![trigger literal_pattern(s)]
            pattern@ == literal_pattern(s) && s.len() <= 1000 ==> r == Some(occurs_in(s, line@)),
{
    let re = fancy_regex::RegexBuilder::new(pattern).build().ok()?;
    re.is_match(line).ok()
}

/// The lines that `git grep` reads from a text: the pieces between line
/// feeds, without an empty piece after a final line feed.
pub open spec fn grep_lines(text: Seq<char>) -> Seq<Seq<char>> {
    let p = split_on(text, '\n');
    p.drop_last() + if p.last().len() > 0 {
        seq![p.last()]
    } else {
        Seq::empty()
    }
}

/// What searching `lines` in turn gives: `Some(true)` at the first line
/// that matches, `None` when the engine gives up on a line before that, and
/// `Some(false)` when no line matches.
pub open spec fn lines_outcome(pattern: Seq<char>, lines: Seq<Seq<char>>) -> Option<bool>
    decreases lines.len(),
{
    if lines.len() == 0 {
        Some(false)
    } else {
        match regex_line_match(pattern, lines[0]) {
            None => None,
            Some(true) => Some(true),
            Some(false) => lines_outcome(pattern, lines.drop_first()),
        }
    }
}

/// What searching a note's text gives; a text that holds a NUL character is
/// taken for binary and not searched.
pub open spec fn text_outcome(pattern: Seq<char>, text: Seq<char>) -> Option<bool> {
    if text.contains('\0') {
        Some(false)
    } else {
        lines_outcome(pattern, grep_lines(text))
    }
}

/// Whether `git grep` finds the text `s` in `text`: the text holds no NUL
/// and one of its lines contains `s`.
pub open spec fn text_holds(text: Seq<char>, s: Seq<char>) -> bool {
    !text.contains('\0') && exists|k: int|
        0 <= k < grep_lines(text).len() && occurs_in(s, #[trigger] grep_lines(text)[k])
}

/// Whether the search pattern `p` is a plain piece of text: at most 1000
/// characters, each of which stands for itself in a basic regular
/// expression.
pub open spec fn is_plain_search(p: Seq<char>) -> bool {
    p.len() <= 1000 && all_ordinary(p)
}

/// The engine pattern of a search pattern, when the pattern is a well-formed
/// basic regular expression whose written-out form the engine compiles.
pub open spec fn search_regex(pattern: Seq<char>) -> Option<Seq<char>> {
    match translate(pattern) {
        Some(t) => if regex_line_match(t, Seq::empty()) is Some {
            Some(t)
        } else {
            None
        },
        None => None,
    }
}

/// The engine pattern of a search pattern, if it is accepted.
pub fn search_regex_of(pattern: &str) -> (r: Option<String>)
    ensures
        match r {
            Some(t) => search_regex(pattern@) == Some(t@),
            None => search_regex(pattern@) is None,
        },
        is_plain_search(pattern@) ==> r is Some && r.unwrap()@ == literal_pattern(pattern@),
{
    proof {
        if is_plain_search(pattern@) {
            crate::bre::law_ordinary_pattern_is_literal(pattern@);
        }
    }
    let chars = chars_of(pattern);
    match crate::bre::translate_pattern(&chars) {
        Some(t) => {
            let t = string_from_chars(&t);
            let empty = String::new();
            if regex_is_match(t.as_str(), empty.as_str()).is_some() {
                Some(t)
            } else {
                None
            }
        },
        None => None,
    }
}

/// The lines that `git grep` reads from `text`.
fn grep_lines_of(text: &[char]) -> (lines: Vec<Vec<char>>)
    ensures
        char_views(lines@) == grep_lines(text@),
{
    let mut pieces = split_chars(text, '\n');
    proof {
        crate::lines::lemma_split_nonempty(text@, '\n');
    }
    let ghost pv = char_views(pieces@);
    let last = pieces.pop().unwrap();
    assert(char_views(pieces@) =~= pv.drop_last());
    if last.len() > 0 {
        let ghost before = pieces@;
        pieces.push(last);
        assert(char_views(pieces@) =~= char_views(before).push(pv.last()));
    }
    assert(char_views(pieces@) =~= grep_lines(text@));
    pieces
}

/// Searches `text` with the engine pattern `regex`.
pub fn text_search(regex: &str, text: &str) -> (r: Option<bool>)
    ensures
        r == text_outcome(regex@, text@),
        forall|s: Seq<char>|
            #![trigger literal_pattern(s)]
            regex@ == literal_pattern(s) && s.len() <= 1000 ==> r == Some(text_holds(text@, s)),
{
    let chars = chars_of(text);
    let mut i: usize = 0;
    while i < chars.len()
        invariant
            chars@ == text@,
            i <= chars@.len(),
            forall|k: int| 0 <= k < i ==> chars@[k] != '\0',
        decreases chars@.len() - i,
    {
        if chars[i] == '\0' {
            assert(text@.contains('\0'));
            return Some(false);
        }
        i = i + 1;
    }
    let lines = grep_lines_of(&chars);
    let ghost gl = grep_lines(text@);
    let mut k: usize = 0;
    assert(gl.skip(0) =~= gl);
    while k < lines.len()
        invariant
            char_views(lines@) == gl,
            gl == grep_lines(text@),
            !text@.contains('\0'),
            k <= lines@.len(),
            lines_outcome(regex@, gl.skip(k as int)) == text_outcome(regex@, text@),
            forall|s: Seq<char>|
                #![trigger literal_pattern(s)]
                regex@ == literal_pattern(s) && s.len() <= 1000 ==> forall|j: int|
                    0 <= j < k ==> !occurs_in(s, #[trigger] gl[j]),
        decreases lines@.len() - k,
    {
        assert(gl.skip(k as int)[0] == lines@[k as int]@);
        assert(gl.skip(k as int).drop_first() =~= gl.skip(k + 1));
        let line = string_from_chars(&lines[k]);
        assert(line@ == gl[k as int]);
        match regex_is_match(regex, line.as_str()) {
            None => return None,
            Some(true) => {
                assert forall|s: Seq<char>|
                    #![trigger literal_pattern(s)]
                    regex@ == literal_pattern(s) && s.len() <= 1000 implies Some(true) == Some(
                        text_holds(text@, s),
                    ) by {
                    assert(occurs_in(s, gl[k as int]));
                }
                return Some(true);
            },
            Some(false) => {},
        }
        k = k + 1;
    }
    assert forall|s: Seq<char>|
        #![trigger literal_pattern(s)]
        regex@ == literal_pattern(s) && s.len() <= 1000 implies Some(false) == Some(text_holds(text@, s)) by {
        assert(!(exists|j: int| 0 <= j < gl.len() && occurs_in(s, #[trigger] gl[j])));
    }
    Some(false)
}

} // verus!
