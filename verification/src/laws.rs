//! What holds of the notes API across calls, stated over the views that the
//! API's contracts use.
use crate::grep::text_outcome;
use crate::authorship::{parse_authorship_log, LogView};
use crate::cleanup::{lemma_clean_then_trim, lines_end_clean, no_double_blank, stripspace, trim};
use crate::oid::git_blob_oid;
use crate::repository::{firsts, RepoView};
use vstd::prelude::*;

verus! {

/// The text of the last entry of `entries` for `sha`, if there is one.
pub open spec fn last_text_for(entries: Seq<(Seq<char>, Seq<char>)>, sha: Seq<char>) -> Option<Seq<char>>
    decreases entries.len(),
{
    if entries.len() == 0 {
        None
    } else if entries.last().0 == sha {
        Some(entries.last().1)
    } else {
        last_text_for(entries.drop_last(), sha)
    }
}

/// What searching the note of `sha` with the engine pattern gives.
pub open spec fn note_outcome(r: RepoView, sha: Seq<char>, regex: Seq<char>) -> Option<bool> {
    if r.notes.contains_key(sha) {
        text_outcome(regex, r.notes[sha])
    } else {
        Some(false)
    }
}

/// Reading a note gives back what was last written to it, cleaned as git
/// cleans a note and without white space at either end, or nothing when the
/// text cleaned to nothing; a text that this leaves as it is comes back
/// unchanged.
pub proof fn law_read_after_write(r: RepoView, sha: Seq<char>, text: Seq<char>)
    ensures
        r.with_written(sha, text).shown(sha) == if stripspace(text).len() == 0 {
            None
        } else {
            Some(trim(stripspace(text)))
        },
        stripspace(text).len() > 0 && trim(stripspace(text)) == text ==> r.with_written(sha, text).shown(sha)
            == Some(text),
{
}

/// An authorship log written as text that the clean-up leaves as it is (up
/// to white space at the ends) reads back as the same log.
pub proof fn law_authorship_after_write(r: RepoView, sha: Seq<char>, text: Seq<char>, log: LogView)
    requires
        trim(stripspace(text)) == trim(text),
        parse_authorship_log(trim(text)) == Some(log),
    ensures
        r.with_written(sha, text).authorship(sha) == Some(log),
{
    if stripspace(text).len() == 0 {
        assert(stripspace(text) =~= Seq::<char>::empty());
        lemma_trim_empty();
        lemma_empty_is_no_log();
    }
}

/// Trimming nothing gives nothing.
proof fn lemma_trim_empty()
    ensures
        trim(Seq::<char>::empty()) == Seq::<char>::empty(),
{
}

/// The empty text is no authorship log.
proof fn lemma_empty_is_no_log()
    ensures
        parse_authorship_log(Seq::<char>::empty()) is None,
{
    let e = Seq::<char>::empty();
    let pieces = crate::lines::split_on(e, '\n');
    assert(pieces =~= seq![Seq::<char>::empty()]);
    assert(crate::lines::text_lines(e) =~= Seq::<Seq<char>>::empty());
}

/// Writing the note of one commit leaves the notes of all others as they were.
pub proof fn law_write_leaves_others(r: RepoView, sha: Seq<char>, text: Seq<char>, other: Seq<char>)
    requires
        other != sha,
    ensures
        r.with_note(sha, text).note(other) == r.note(other),
{
}

/// A second write to the same commit replaces the first.
pub proof fn law_last_write_wins(r: RepoView, sha: Seq<char>, first: Seq<char>, second: Seq<char>)
    ensures
        r.with_note(sha, first).with_note(sha, second) == r.with_note(sha, second),
{
    assert(r.with_note(sha, first).with_note(sha, second).notes =~= r.with_note(sha, second).notes);
}

/// Writing a batch of one entry is writing that entry.
pub proof fn law_single_entry_batch(r: RepoView, sha: Seq<char>, text: Seq<char>)
    ensures
        r.with_notes(seq![(sha, text)]) == r.with_written(sha, text),
{
    let s = seq![(sha, text)];
    assert(s.drop_last() =~= Seq::<(Seq<char>, Seq<char>)>::empty());
    assert(r.with_notes(s.drop_last()) == r);
    assert(s.last() == (sha, text));
}

/// After a batch, each commit's note is the cleaned text of the batch's last
/// entry for it (no note when that cleans to nothing), and the notes of
/// commits the batch does not name are unchanged.
pub proof fn law_batch_reads_last_entry(r: RepoView, entries: Seq<(Seq<char>, Seq<char>)>, sha: Seq<char>)
    ensures
        r.with_notes(entries).note(sha) == match last_text_for(entries, sha) {
            Some(text) => if stripspace(text).len() == 0 {
                None
            } else {
                Some(stripspace(text))
            },
            None => r.note(sha),
        },
    decreases entries.len(),
{
    if entries.len() > 0 {
        law_batch_reads_last_entry(r, entries.drop_last(), sha);
    }
}

/// Writing notes never changes the commits.
pub proof fn law_batch_keeps_commits(r: RepoView, entries: Seq<(Seq<char>, Seq<char>)>)
    ensures
        r.with_notes(entries).commits == r.commits,
    decreases entries.len(),
{
    if entries.len() > 0 {
        law_batch_keeps_commits(r, entries.drop_last());
    }
}

/// A batch is accepted exactly when every commit it names is known.
pub proof fn law_batch_accepted_iff_known(r: RepoView, shas: Seq<Seq<char>>)
    ensures
        r.first_unknown(shas) is None <==> forall|i: int| 0 <= i < shas.len() ==> r.commits.contains_key(#[trigger] shas[i]),
    decreases shas.len(),
{
    if shas.len() > 0 {
        law_batch_accepted_iff_known(r, shas.drop_last());
        if r.first_unknown(shas) is None {
            assert forall|i: int| 0 <= i < shas.len() implies r.commits.contains_key(#[trigger] shas[i]) by {
                if i < shas.len() - 1 {
                    assert(shas.drop_last()[i] == shas[i]);
                }
            }
        } else if forall|i: int| 0 <= i < shas.len() ==> r.commits.contains_key(#[trigger] shas[i]) {
            assert forall|i: int| 0 <= i < shas.drop_last().len() implies r.commits.contains_key(
                #[trigger] shas.drop_last()[i],
            ) by {
                assert(shas.drop_last()[i] == shas[i]);
            }
            assert(r.commits.contains_key(shas[shas.len() - 1]));
        }
    }
}

/// Accepted writes keep every note attached to a known commit.
pub proof fn law_batch_keeps_notes_attached(r: RepoView, entries: Seq<(Seq<char>, Seq<char>)>)
    requires
        r.notes_attached(),
        r.first_unknown(firsts(entries)) is None,
    ensures
        r.with_notes(entries).notes_attached(),
{
    law_batch_accepted_iff_known(r, firsts(entries));
    law_batch_keeps_commits(r, entries);
    assert forall|sha: Seq<char>| #[trigger] r.with_notes(entries).notes.contains_key(sha) implies r.with_notes(
        entries,
    ).commits.contains_key(sha) by {
        law_batch_reads_last_entry(r, entries, sha);
        if last_text_for(entries, sha) is None {
            assert(r.notes.contains_key(sha));
        } else {
            lemma_last_text_named(entries, sha);
            let i = choose|i: int| 0 <= i < entries.len() && entries[i].0 == sha;
            assert(firsts(entries)[i] == sha);
        }
    }
}

/// The last text of a batch for `sha` is the text of one of its entries.
proof fn lemma_last_text_named(entries: Seq<(Seq<char>, Seq<char>)>, sha: Seq<char>)
    requires
        last_text_for(entries, sha) is Some,
    ensures
        exists|i: int| 0 <= i < entries.len() && entries[i].0 == sha,
        exists|i: int| 0 <= i < entries.len() && entries[i] == (sha, last_text_for(entries, sha).unwrap()),
    decreases entries.len(),
{
    if entries.last().0 == sha {
        assert(entries[entries.len() - 1].0 == sha);
        assert(entries[entries.len() - 1] == (sha, last_text_for(entries, sha).unwrap()));
    } else {
        lemma_last_text_named(entries.drop_last(), sha);
        let i = choose|i: int| 0 <= i < entries.drop_last().len() && entries.drop_last()[i].0 == sha;
        assert(entries[i].0 == sha);
        let k = choose|k: int|
            0 <= k < entries.drop_last().len() && entries.drop_last()[k] == (sha, last_text_for(
                entries.drop_last(),
                sha,
            ).unwrap());
        assert(entries[k] == (sha, last_text_for(entries, sha).unwrap()));
    }
}

/// A text that is not blank, whose lines end without white space and that
/// has no two blank lines in a row reads back, once written, as the text
/// itself up to white space at its ends.
pub proof fn law_write_reads_back_trimmed(r: RepoView, sha: Seq<char>, text: Seq<char>)
    requires
        trim(text).len() > 0,
        lines_end_clean(text),
        no_double_blank(text),
    ensures
        r.with_written(sha, text).shown(sha) == Some(trim(text)),
{
    lemma_clean_then_trim(text);
}

/// After a batch of such texts, each named commit's note reads back as the
/// batch's last text for it, up to white space at its ends.
pub proof fn law_batch_reads_back_trimmed(r: RepoView, entries: Seq<(Seq<char>, Seq<char>)>, sha: Seq<char>)
    requires
        forall|i: int|
            0 <= i < entries.len() ==> trim(#[trigger] entries[i].1).len() > 0 && lines_end_clean(entries[i].1)
                && no_double_blank(entries[i].1),
        last_text_for(entries, sha) is Some,
    ensures
        r.with_notes(entries).shown(sha) == Some(trim(last_text_for(entries, sha).unwrap())),
{
    let t = last_text_for(entries, sha).unwrap();
    lemma_last_text_named(entries, sha);
    let i = choose|i: int| 0 <= i < entries.len() && entries[i] == (sha, t);
    assert(entries[i].1 == t);
    lemma_clean_then_trim(t);
    law_batch_reads_last_entry(r, entries, sha);
}

/// The commits with notes of a list are the listed commits that carry a
/// note, each once.
pub proof fn law_commits_with_notes(r: RepoView, shas: Seq<Seq<char>>)
    ensures
        r.noted_commits(shas).no_duplicates(),
        forall|sha: Seq<char>|
            #[trigger] r.noted_commits(shas).contains(sha) <==> (shas.contains(sha) && r.notes.contains_key(sha)),
{
    r.lemma_noted_commits(shas);
}

/// The blob ids are reported for exactly the commits with notes, in the same
/// order, each with the id of its own note.
pub proof fn law_blob_oids_follow_notes(r: RepoView, shas: Seq<Seq<char>>)
    ensures
        firsts(r.note_blob_oids(shas)) == r.noted_commits(shas),
        forall|i: int|
            0 <= i < r.note_blob_oids(shas).len() ==> #[trigger] r.note_blob_oids(shas)[i].1 == git_blob_oid(
                r.format,
                r.notes[r.noted_commits(shas)[i]],
            ),
{
    assert(firsts(r.note_blob_oids(shas)) =~= r.noted_commits(shas));
}

/// The blob id reported for a stored note is the id of the stored text.
pub proof fn law_blob_oid_after_write(r: RepoView, sha: Seq<char>, text: Seq<char>, shas: Seq<Seq<char>>)
    requires
        shas.contains(sha),
    ensures
        r.with_note(sha, text).note_blob_oids(shas).contains((sha, git_blob_oid(r.format, text))),
{
    let w = r.with_note(sha, text);
    w.lemma_noted_commits(shas);
    assert(w.noted_commits(shas).contains(sha));
    let i = choose|i: int| 0 <= i < w.noted_commits(shas).len() && w.noted_commits(shas)[i] == sha;
    assert(w.note_blob_oids(shas)[i] == (sha, git_blob_oid(r.format, text)));
}

/// Searching a stored note gives what searching its text gives.
pub proof fn law_search_finds_written(r: RepoView, sha: Seq<char>, text: Seq<char>, regex: Seq<char>)
    ensures
        note_outcome(r.with_note(sha, text), sha, regex) == text_outcome(regex, text),
{
}

/// A commit of a list gets its log exactly when its note is an authorship
/// log, and then it carries a note.
pub proof fn law_log_iff_authorship(r: RepoView, sha: Seq<char>)
    ensures
        (r.commit_authorship(sha) is Log) <==> (r.authorship(sha) is Some),
        r.commit_authorship(sha) is Log ==> r.notes.contains_key(sha),
{
}

} // verus!
