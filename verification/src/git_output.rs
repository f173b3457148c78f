//! Reading the lines that git prints when a repository is loaded.
use crate::lines::{first_index, find_char, sub_chars};
use crate::oid::ObjectFormat;
use crate::text::{chars_equal, chars_of, string_from_chars};
use vstd::prelude::*;

verus! {

/// The two fields of `line` around the first `sep`, if it holds one.
pub open spec fn split_once(line: Seq<char>, sep: char) -> Option<(Seq<char>, Seq<char>)> {
    match first_index(line, sep) {
        Some(i) => Some((line.take(i), line.skip(i + 1))),
        None => None,
    }
}

/// Splits `line` at its first `sep`.
fn split_line(line: &str, sep: char) -> (r: Option<(String, String)>)
    ensures
        match r {
            Some((a, b)) => split_once(line@, sep) == Some((a@, b@)),
            None => split_once(line@, sep) is None,
        },
{
    let chars = chars_of(line);
    let n = chars.len();
    match find_char(&chars, sep) {
        Some(i) => {
            let a = sub_chars(&chars, 0, i);
            let b = sub_chars(&chars, i + 1, n);
            assert(a@ =~= line@.take(i as int));
            assert(b@ =~= line@.skip(i + 1));
            Some((string_from_chars(&a), string_from_chars(&b)))
        },
        None => None,
    }
}

/// The object format that `git rev-parse --show-object-format` names,
/// without the line's end.
pub fn object_format_named(name: &str) -> (r: Option<ObjectFormat>)
    ensures
        r == (if name@ == "sha1"@ {
            Some(ObjectFormat::Sha1)
        } else if name@ == "sha256"@ {
            Some(ObjectFormat::Sha256)
        } else {
            None
        }),
{
    let chars = chars_of(name);
    if chars_equal(&chars, &chars_of("sha1")) {
        Some(ObjectFormat::Sha1)
    } else if chars_equal(&chars, &chars_of("sha256")) {
        Some(ObjectFormat::Sha256)
    } else {
        None
    }
}

/// A line of `git log --format=%H%x00%an <%ae>`: the commit id and its
/// author, split at the NUL character.
pub fn commit_log_line(line: &str) -> (r: Option<(String, String)>)
    ensures
        match r {
            Some((sha, author)) => split_once(line@, '\0') == Some((sha@, author@)),
            None => split_once(line@, '\0') is None,
        },
{
    split_line(line, '\0')
}

/// A line of `git notes list`: the note blob id and the commit id, split at
/// the space.
pub fn notes_list_line(line: &str) -> (r: Option<(String, String)>)
    ensures
        match r {
            Some((blob, sha)) => split_once(line@, ' ') == Some((blob@, sha@)),
            None => split_once(line@, ' ') is None,
        },
{
    split_line(line, ' ')
}

} // verus!
