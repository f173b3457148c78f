//! The notes API: every authorship-note read and write of a repository
//! goes through these functions.
use crate::authorship::{read_authorship_log, AuthorshipLog};
use crate::cleanup::{clean_note, trim_text};
use crate::error::GitAiError;
use crate::repository::{
    authorship_views, firsts, pair_views, string_views, RepoView, Repository,
    AUTHORSHIP_LOG_VERSION,
};
use crate::laws::{law_batch_accepted_iff_known, law_batch_keeps_commits};
use crate::grep::{is_plain_search, search_regex, search_regex_of, text_holds, text_outcome, text_search};
use crate::oid::is_hex_id;
use crate::text::{chars_equal, chars_of};
use vstd::prelude::*;

pub use crate::repository::CommitAuthorship;

verus! {

// --- Writes ---

/// Attaches `content`, cleaned as git cleans a note's text, as the
/// authorship note of `commit_sha`, replacing any note it had; a text that
/// cleans to nothing removes the note instead, as `git notes add` does.
/// Fails, changing nothing, when the repository does not hold the commit.
pub fn write_note(repo: &mut Repository, commit_sha: &str, content: &str) -> (r: Result<(), GitAiError>)
    requires
        old(repo).wf(),
    ensures
        final(repo).wf(),
        match r {
            Ok(()) => old(repo)@.commits.contains_key(commit_sha@)
                && final(repo)@ == old(repo)@.with_written(commit_sha@, content@),
            Err(GitAiError::UnknownCommit { commit_sha: sha }) => !old(repo)@.commits.contains_key(commit_sha@)
                && sha@ == commit_sha@ && final(repo)@ == old(repo)@,
            Err(_) => false,
        },
{
    if !repo.has_commit(commit_sha) {
        return Err(GitAiError::UnknownCommit { commit_sha: commit_sha.to_owned() });
    }
    store_cleaned(repo, commit_sha, content);
    Ok(())
}

/// Writes each `(commit_sha, content)` of `entries` in turn, as `write_note`
/// does, so that a later entry for the same commit wins. When some entry names a commit the
/// repository does not hold, nothing is written and the first such commit is
/// reported.
pub fn write_notes_batch(repo: &mut Repository, entries: &[(String, String)]) -> (r: Result<(), GitAiError>)
    requires
        old(repo).wf(),
    ensures
        final(repo).wf(),
        match r {
            Ok(()) => old(repo)@.first_unknown(firsts(pair_views(entries@))) is None
                && final(repo)@ == old(repo)@.with_notes(pair_views(entries@)),
            Err(GitAiError::UnknownCommit { commit_sha }) => old(repo)@.first_unknown(
                firsts(pair_views(entries@)),
            ) == Some(commit_sha@) && final(repo)@ == old(repo)@,
            Err(_) => false,
        },
{
    let ghost pairs = pair_views(entries@);
    let n = entries.len();
    let mut i: usize = 0;
    while i < n
        invariant
            n == entries@.len(),
            pairs == pair_views(entries@),
            repo.wf(),
            i <= n,
            repo@.first_unknown(firsts(pairs).take(i as int)) is None,
        decreases n - i,
    {
        assert(firsts(pairs).take(i + 1).drop_last() =~= firsts(pairs).take(i as int));
        assert(firsts(pairs)[i as int] == entries@[i as int].0@);
        if !repo.has_commit(entries[i].0.as_str()) {
            proof {
                lemma_first_unknown_prefix(repo@, firsts(pairs), i as int);
            }
            return Err(GitAiError::UnknownCommit { commit_sha: entries[i].0.clone() });
        }
        i = i + 1;
    }
    assert(firsts(pairs).take(n as int) =~= firsts(pairs));
    let ghost start = repo@;
    let mut j: usize = 0;
    while j < n
        invariant
            n == entries@.len(),
            pairs == pair_views(entries@),
            repo.wf(),
            j <= n,
            start.first_unknown(firsts(pairs)) is None,
            repo@ == start.with_notes(pairs.take(j as int)),
        decreases n - j,
    {
        assert(pairs.take(j + 1).drop_last() =~= pairs.take(j as int));
        assert(firsts(pairs)[j as int] == entries@[j as int].0@);
        proof {
            law_batch_accepted_iff_known(start, firsts(pairs));
            assert(firsts(pairs)[j as int] == pairs[j as int].0);
            law_batch_keeps_commits(start, pairs.take(j as int));
        }
        store_cleaned(repo, entries[j].0.as_str(), entries[j].1.as_str());
        j = j + 1;
    }
    assert(pairs.take(n as int) =~= pairs);
    Ok(())
}

// --- Reads ---

/// The authorship note of `commit_sha`, if it has one, without white space
/// at either end.
pub fn read_note(repo: &Repository, commit_sha: &str) -> (r: Option<String>)
    requires
        repo.wf(),
    ensures
        match r {
            Some(text) => repo@.shown(commit_sha@) == Some(text@),
            None => repo@.note(commit_sha@) is None,
        },
{
    match repo.note_table().get(commit_sha) {
        Some(text) => Some(trim_text(text.as_str())),
        None => None,
    }
}

/// The authorship log in the note of `commit_sha`; `None` when the commit has
/// no note or its note is not an authorship log.
pub fn read_authorship(repo: &Repository, commit_sha: &str) -> (r: Option<AuthorshipLog>)
    requires
        repo.wf(),
    ensures
        match r {
            Some(log) => repo@.authorship(commit_sha@) == Some(log@),
            None => repo@.authorship(commit_sha@) is None,
        },
{
    match read_note(repo, commit_sha) {
        Some(text) => read_authorship_log(text.as_str()),
        None => None,
    }
}

/// The authorship log in the note of `commit_sha`, which must be of the
/// current schema version.
pub fn read_authorship_v3(repo: &Repository, commit_sha: &str) -> (r: Result<AuthorshipLog, GitAiError>)
    requires
        repo.wf(),
    ensures
        match r {
            Ok(log) => repo@.authorship(commit_sha@) == Some(log@)
                && log@.metadata.schema_version == AUTHORSHIP_LOG_VERSION@,
            Err(GitAiError::NoteNotFound { commit_sha: sha }) => repo@.note(commit_sha@) is None
                && sha@ == commit_sha@,
            Err(GitAiError::InvalidAuthorshipLog { commit_sha: sha }) => repo@.note(commit_sha@) is Some
                && repo@.authorship(commit_sha@) is None && sha@ == commit_sha@,
            Err(GitAiError::UnsupportedVersion { found }) => match repo@.authorship(commit_sha@) {
                Some(log) => log.metadata.schema_version == found@ && found@ != AUTHORSHIP_LOG_VERSION@,
                None => false,
            },
            Err(_) => false,
        },
{
    let text = match read_note(repo, commit_sha) {
        Some(text) => text,
        None => return Err(GitAiError::NoteNotFound { commit_sha: commit_sha.to_owned() }),
    };
    let log = match read_authorship_log(text.as_str()) {
        Some(log) => log,
        None => return Err(GitAiError::InvalidAuthorshipLog { commit_sha: commit_sha.to_owned() }),
    };
    if !chars_equal(
        &chars_of(log.metadata.schema_version.as_str()),
        &chars_of(AUTHORSHIP_LOG_VERSION),
    ) {
        return Err(GitAiError::UnsupportedVersion { found: log.metadata.schema_version.clone() });
    }
    Ok(log)
}

/// Each of `commit_shas`, in order, with its git author and, when its note
/// is an authorship log, that log.
pub fn filter_commits_with_notes(repo: &Repository, commit_shas: &[String]) -> (r: Result<Vec<CommitAuthorship>, GitAiError>)
    requires
        repo.wf(),
    ensures
        match r {
            Ok(v) => authorship_views(v@) == string_views(commit_shas@).map_values(
                |sha: Seq<char>| repo@.commit_authorship(sha),
            ),
            Err(_) => false,
        },
{
    let ghost target = string_views(commit_shas@).map_values(|sha: Seq<char>| repo@.commit_authorship(sha));
    let mut out: Vec<CommitAuthorship> = Vec::new();
    let mut i: usize = 0;
    while i < commit_shas.len()
        invariant
            repo.wf(),
            target == string_views(commit_shas@).map_values(|sha: Seq<char>| repo@.commit_authorship(sha)),
            i <= commit_shas@.len(),
            authorship_views(out@) == target.take(i as int),
        decreases commit_shas@.len() - i,
    {
        let sha = &commit_shas[i];
        let git_author = repo.git_author(sha.as_str());
        let item = match read_authorship(repo, sha.as_str()) {
            Some(log) => CommitAuthorship::Log { sha: sha.clone(), git_author, authorship_log: log },
            None => CommitAuthorship::NoLog { sha: sha.clone(), git_author },
        };
        let ghost before = out@;
        out.push(item);
        assert(authorship_views(out@) =~= authorship_views(before).push(item@));
        assert(target[i as int] == repo@.commit_authorship(sha@));
        assert(target.take(i + 1) =~= target.take(i as int).push(target[i as int]));
        i = i + 1;
    }
    assert(target.take(i as int) =~= target);
    Ok(out)
}

/// The distinct members of `commit_shas` that carry a note, in the order in
/// which they first appear.
pub fn commits_with_notes(repo: &Repository, commit_shas: &[String]) -> (r: Result<Vec<String>, GitAiError>)
    requires
        repo.wf(),
    ensures
        match r {
            Ok(v) => string_views(v@) == repo@.noted_commits(string_views(commit_shas@)),
            Err(_) => false,
        },
{
    let table = repo.note_table();
    let ghost shas = string_views(commit_shas@);
    let mut out: Vec<String> = Vec::new();
    let n = commit_shas.len();
    let mut i: usize = 0;
    while i < n
        invariant
            n == commit_shas@.len(),
            shas == string_views(commit_shas@),
            table.wf(),
            table@ == repo@.notes,
            i <= n,
            string_views(out@) == repo@.noted_commits(shas.take(i as int)),
        decreases n - i,
    {
        assert(shas.take(i + 1).drop_last() =~= shas.take(i as int));
        let sha = &commit_shas[i];
        let ghost before = out@;
        if table.contains_key(sha.as_str()) && !contains_string(&out, sha) {
            out.push(sha.clone());
            assert(string_views(out@) =~= string_views(before).push(sha@));
        }
        i = i + 1;
    }
    assert(shas.take(n as int) =~= shas);
    Ok(out)
}

/// The distinct members of `commit_shas` that carry a note, in the order in
/// which they first appear, each paired with the object id of its note blob.
pub fn read_note_blob_oids(repo: &Repository, commit_shas: &[String]) -> (r: Result<Vec<(String, String)>, GitAiError>)
    requires
        repo.wf(),
    ensures
        match r {
            Ok(v) => pair_views(v@) == repo@.note_blob_oids(string_views(commit_shas@))
                && forall|k: int| 0 <= k < v@.len() ==> is_hex_id(repo@.format, #[trigger] v@[k].1@),
            Err(_) => false,
        },
{
    let noted = match commits_with_notes(repo, commit_shas) {
        Ok(v) => v,
        Err(e) => return Err(e),
    };
    let ghost target = repo@.note_blob_oids(string_views(commit_shas@));
    proof {
        repo@.lemma_noted_commits(string_views(commit_shas@));
    }
    let table = repo.note_table();
    let mut out: Vec<(String, String)> = Vec::new();
    let mut i: usize = 0;
    while i < noted.len()
        invariant
            table.wf(),
            table@ == repo@.notes,
            target == repo@.note_blob_oids(string_views(commit_shas@)),
            string_views(noted@) == repo@.noted_commits(string_views(commit_shas@)),
            forall|sha: Seq<char>|
                #[trigger] string_views(noted@).contains(sha) ==> repo@.notes.contains_key(sha),
            i <= noted@.len(),
            pair_views(out@) == target.take(i as int),
            forall|k: int| 0 <= k < out@.len() ==> is_hex_id(repo@.format, #[trigger] out@[k].1@),
        decreases noted@.len() - i,
    {
        let sha = &noted[i];
        assert(string_views(noted@)[i as int] == sha@);
        assert(string_views(noted@).contains(sha@));
        match table.get(sha.as_str()) {
            Some(text) => {
                let oid = crate::oid::blob_oid(repo.format(), text.as_str());
                let ghost before = out@;
                out.push((sha.clone(), oid));
                assert(pair_views(out@) =~= pair_views(before).push((sha@, oid@)));
                assert(forall|k: int| 0 <= k < before.len() ==> out@[k] == before[k]);
                assert(target.take(i + 1) =~= target.take(i as int).push(target[i as int]));
            },
            None => {
                assert(false);
            },
        }
        i = i + 1;
    }
    assert(target.take(i as int) =~= target);
    Ok(out)
}

// --- Search ---

/// The commits whose note has a line that the basic regular expression
/// `pattern` matches, as `git grep` reads notes (line by line, leaving out a
/// note that holds a NUL character), each once. A pattern that is not a
/// well-formed basic regular expression is refused; so is the search when
/// the matching engine gives up on some note. A pattern of plain text (see
/// `is_plain_search`) always succeeds and finds exactly the commits whose
/// note has a line containing that text, case and all.
pub fn search_notes(repo: &Repository, pattern: &str) -> (r: Result<Vec<String>, GitAiError>)
    requires
        repo.wf(),
    ensures
        match r {
            Ok(v) => match search_regex(pattern@) {
                Some(t) => {
                    &&& forall|sha: Seq<char>| #[trigger] repo@.notes.contains_key(sha) ==> text_outcome(t, repo@.notes[sha]) is Some
                    &&& string_views(v@).no_duplicates()
                    &&& forall|sha: Seq<char>|
                        string_views(v@).contains(sha) <==> (repo@.notes.contains_key(sha)
                            && text_outcome(t, repo@.notes[sha]) == Some(true))
                    &&& forall|k: int| 0 <= k < v@.len() ==> is_hex_id(repo@.format, #[trigger] v@[k]@)
                },
                None => false,
            },
            Err(GitAiError::InvalidPattern { pattern: p }) => search_regex(pattern@) is None && p@ == pattern@,
            Err(GitAiError::SearchFailed { commit_sha }) => match search_regex(pattern@) {
                Some(t) => repo@.notes.contains_key(commit_sha@) && text_outcome(t, repo@.notes[commit_sha@]) is None,
                None => false,
            },
            Err(_) => false,
        },
        is_plain_search(pattern@) ==> match r {
            Ok(v) => forall|sha: Seq<char>|
                string_views(v@).contains(sha) <==> (repo@.notes.contains_key(sha) && text_holds(
                    repo@.notes[sha],
                    pattern@,
                )),
            Err(_) => false,
        },
{
    let regex = match search_regex_of(pattern) {
        Some(t) => t,
        None => return Err(GitAiError::InvalidPattern { pattern: pattern.to_owned() }),
    };
    let table = repo.note_table();
    let mut out: Vec<String> = Vec::new();
    let ghost mut at: Seq<int> = Seq::empty();
    let n = table.len();
    let mut i: usize = 0;
    while i < n
        invariant
            n == table.len_spec(),
            table.wf(),
            table@ == repo@.notes,
            search_regex(pattern@) == Some(regex@),
            i <= n,
            string_views(out@).no_duplicates(),
            at.len() == out@.len(),
            forall|a: int|
                0 <= a < out@.len() ==> 0 <= #[trigger] at[a] < i && table.key_at(at[a]) == out@[a]@
                    && text_outcome(regex@, table.val_at(at[a])) == Some(true),
            forall|j: int|
                0 <= j < i ==> text_outcome(regex@, #[trigger] table.val_at(j)) is Some,
            is_plain_search(pattern@) ==> regex@ == crate::bre::literal_pattern(pattern@),
            is_plain_search(pattern@) ==> forall|j: int|
                0 <= j < i ==> text_outcome(regex@, #[trigger] table.val_at(j)) == Some(
                    text_holds(table.val_at(j), pattern@),
                ),
            forall|j: int|
                0 <= j < i && text_outcome(regex@, table.val_at(j)) == Some(true) ==> string_views(
                    out@,
                ).contains(#[trigger] table.key_at(j)),
        decreases n - i,
    {
        let found = match text_search(regex.as_str(), table.value(i).as_str()) {
            Some(f) => f,
            None => {
                proof {
                    table.lemma_index(i as int);
                    if is_plain_search(pattern@) {
                        assert(regex@ == crate::bre::literal_pattern(pattern@));
                    }
                }
                return Err(GitAiError::SearchFailed { commit_sha: table.key(i).clone() });
            },
        };
        if found {
            let ghost before = out@;
            proof {
                assert forall|a: int| 0 <= a < before.len() implies before[a]@ != table.key_at(i as int) by {
                    table.lemma_distinct(at[a], i as int);
                }
            }
            out.push(table.key(i).clone());
            proof {
                at = at.push(i as int);
                assert(string_views(out@) =~= string_views(before).push(table.key_at(i as int)));
                assert forall|j: int|
                    0 <= j < i + 1 && text_outcome(regex@, table.val_at(j)) == Some(true) implies string_views(
                    out@,
                ).contains(#[trigger] table.key_at(j)) by {
                    if j < i {
                        let a = choose|a: int| 0 <= a < before.len() && string_views(before)[a] == table.key_at(j);
                        assert(string_views(out@)[a] == table.key_at(j));
                    } else {
                        assert(string_views(out@)[before.len() as int] == table.key_at(j));
                    }
                }
            }
        }
        i = i + 1;
    }
    proof {
        repo.lemma_wf();
        assert forall|k: int| 0 <= k < out@.len() implies is_hex_id(repo@.format, #[trigger] out@[k]@) by {
            table.lemma_index(at[k]);
        }
        assert forall|sha: Seq<char>| #[trigger] repo@.notes.contains_key(sha) implies text_outcome(regex@, repo@.notes[sha]) is Some by {
            table.lemma_key(sha);
            let j = choose|j: int| 0 <= j < table.len_spec() && table.key_at(j) == sha;
            table.lemma_index(j);
        }
        assert forall|sha: Seq<char>|
            string_views(out@).contains(sha) <==> (repo@.notes.contains_key(sha) && text_outcome(
                regex@,
                repo@.notes[sha],
            ) == Some(true)) by {
            if string_views(out@).contains(sha) {
                let a = choose|a: int| 0 <= a < out@.len() && string_views(out@)[a] == sha;
                assert(out@[a]@ == sha);
                table.lemma_index(at[a]);
            }
            if repo@.notes.contains_key(sha) && text_outcome(regex@, repo@.notes[sha]) == Some(true) {
                table.lemma_key(sha);
                let j = choose|j: int| 0 <= j < table.len_spec() && table.key_at(j) == sha;
                table.lemma_index(j);
            }
        }
        if is_plain_search(pattern@) {
            assert forall|sha: Seq<char>|
                string_views(out@).contains(sha) <==> (repo@.notes.contains_key(sha) && text_holds(
                    repo@.notes[sha],
                    pattern@,
                )) by {
                if repo@.notes.contains_key(sha) {
                    table.lemma_key(sha);
                    let j = choose|j: int| 0 <= j < table.len_spec() && table.key_at(j) == sha;
                    table.lemma_index(j);
                }
            }
        }
    }
    Ok(out)
}

// --- Helpers ---

/// Writes `content` as the note of the known commit `sha`.
fn store_cleaned(repo: &mut Repository, sha: &str, content: &str)
    requires
        old(repo).wf(),
        old(repo)@.commits.contains_key(sha@),
    ensures
        final(repo).wf(),
        final(repo)@ == old(repo)@.with_written(sha@, content@),
{
    let cleaned = clean_note(content);
    if cleaned.as_str().is_empty() {
        repo.remove_note(sha);
    } else {
        repo.set_note(sha, cleaned.as_str());
    }
}

/// Whether `v` holds a string equal to `s`.
fn contains_string(v: &Vec<String>, s: &String) -> (b: bool)
    ensures
        b == string_views(v@).contains(s@),
{
    let mut i: usize = 0;
    while i < v.len()
        invariant
            i <= v@.len(),
            forall|k: int| 0 <= k < i ==> v@[k]@ != s@,
        decreases v@.len() - i,
    {
        if v[i] == *s {
            assert(string_views(v@)[i as int] == s@);
            return true;
        }
        i = i + 1;
    }
    proof {
        if string_views(v@).contains(s@) {
            let k = choose|k: int| 0 <= k < v@.len() && string_views(v@)[k] == s@;
            assert(v@[k]@ == s@);
        }
    }
    false
}

/// When the first `i` shas are all known and the next one is not, it is the
/// first unknown sha of the whole sequence.
proof fn lemma_first_unknown_prefix(r: RepoView, shas: Seq<Seq<char>>, i: int)
    requires
        0 <= i < shas.len(),
        r.first_unknown(shas.take(i)) is None,
        !r.commits.contains_key(shas[i]),
    ensures
        r.first_unknown(shas) == Some(shas[i]),
    decreases shas.len(),
{
    if i == shas.len() - 1 {
        assert(shas.drop_last() =~= shas.take(i));
    } else {
        assert(shas.drop_last().take(i) =~= shas.take(i));
        lemma_first_unknown_prefix(r, shas.drop_last(), i);
    }
}

} // verus!
