# git_ai_notes

A verified model of the authorship notes that git-ai keeps on commits
(`refs/notes/ai`), and of the API through which every note read and write
goes.

- `src/repository.rs`: a repository's object format, its commits (with their
  authors) and its notes, viewed as maps keyed by commit id.
- `src/notes_api.rs`: writing notes (one, or a batch), reading them, reading
  them as authorship logs, listing which commits carry notes and the ids of
  their note blobs, and searching notes with basic regular expressions.
- `src/cleanup.rs`: the clean-up git applies to a note's text when it is
  added; a text that cleans to nothing removes the note, as `git notes add`
  does.
- `src/bre.rs`: reading a POSIX basic regular expression (with the GNU
  escapes: groups, intervals, back-references, bracket classes, `\|`, `\+`,
  `\?`, `\w`, `\b` and the rest) and writing it out in the syntax of the
  `fancy-regex` engine; malformed patterns are refused.
- `src/grep.rs`: searching note text line by line with such a pattern, the
  way `git grep` does; each line is matched by `fancy-regex`.
- `src/authorship.rs`: the authorship-log text format and its reader.
- `src/oid.rs`: git blob object ids of note texts, and object-id checks.
- `src/git_output.rs`: the git output lines read when a repository is loaded.
- `src/laws.rs`: what holds across calls (a read gives back the cleaned last
  write, batches behave as writes in order, and so on).
- `src/table.rs`, `src/lines.rs`, `src/text.rs`: a string table, line and
  number reading, and character helpers.
- `app/lib.rs`: loading a repository from disk with `git`, writing notes to
  git and to the library's copy, and hash-collection forms of two results.

Everything under `src/` carries proofs, except five trusted functions: the
SHA-1 digest (`sha1` crate), the SHA-256 digest (`sha2` crate), JSON member
lookup (`serde_json`), matching a line against a compiled pattern
(`fancy-regex`), and appending a character to a `String` (std). What the
digests, the JSON lookup and the engine's match return is named, not
restated; the contracts of the library speak of those names.
