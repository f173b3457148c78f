//! Authorship logs: the text that an authorship note holds.
//!
//! A log is an attestation section, a line `---`, and a JSON metadata
//! object. The attestation section lists files; a file line names a path
//! (in double quotes when it holds blanks) and is followed by entry lines,
//! each indented by two spaces: a session hash, a space, and comma-separated
//! line numbers (`7`) or inclusive line ranges (`3-5`). Blank lines are
//! skipped and trailing white space is ignored; a file without entries is
//! dropped. The metadata must be a JSON object whose `schema_version` and
//! `base_commit_sha` members are strings.
use crate::lines::{
    char_views, find_char, first_index, join_lines, join_with_line_feeds, lines_of, parse_u32,
    parse_u32_chars, split_chars, split_on, sub_chars, text_lines, trim_end, trimmed_len,
};
use crate::bre::{dec_chars, lemma_dec_spells};
use crate::lines::{digits_value, is_digit, is_white_space, lemma_split_nonempty};
use crate::text::{chars_of, string_from_chars};
use vstd::prelude::*;

verus! {

/// The lines of a file that an attestation entry covers: one line, or an
/// inclusive range of lines.
#[derive(Clone, Copy, Debug, PartialEq, Eq, Structural)]
pub enum LineRange {
    Single(u32),
    Range(u32, u32),
}

/// One attestation entry: which session wrote which lines.
#[derive(Debug)]
pub struct AttestationEntry {
    pub hash: String,
    pub line_ranges: Vec<LineRange>,
}

/// The entries of one file.
#[derive(Debug)]
pub struct FileAttestation {
    pub file_path: String,
    pub entries: Vec<AttestationEntry>,
}

/// The metadata section: the two members the log is read by, and the JSON
/// text itself.
#[derive(Debug)]
pub struct AuthorshipMetadata {
    pub schema_version: String,
    pub base_commit_sha: String,
    pub json: String,
}

/// A parsed authorship log.
#[derive(Debug)]
pub struct AuthorshipLog {
    pub attestations: Vec<FileAttestation>,
    pub metadata: AuthorshipMetadata,
}

/// An attestation entry as a value.
pub struct EntryView {
    pub hash: Seq<char>,
    pub line_ranges: Seq<LineRange>,
}

/// A file's attestations as a value.
pub struct FileView {
    pub path: Seq<char>,
    pub entries: Seq<EntryView>,
}

/// Metadata as a value.
pub struct MetadataView {
    pub schema_version: Seq<char>,
    pub base_commit_sha: Seq<char>,
    pub json: Seq<char>,
}

/// An authorship log as a value.
pub struct LogView {
    pub attestations: Seq<FileView>,
    pub metadata: MetadataView,
}

impl View for AttestationEntry {
    type V = EntryView;

    open spec fn view(&self) -> EntryView {
        EntryView { hash: self.hash@, line_ranges: self.line_ranges@ }
    }
}

/// The views of a sequence of entries.
pub open spec fn entry_views(s: Seq<AttestationEntry>) -> Seq<EntryView> {
    s.map_values(|e: AttestationEntry| e@)
}

impl View for FileAttestation {
    type V = FileView;

    open spec fn view(&self) -> FileView {
        FileView { path: self.file_path@, entries: entry_views(self.entries@) }
    }
}

/// The views of a sequence of file attestations.
pub open spec fn file_views(s: Seq<FileAttestation>) -> Seq<FileView> {
    s.map_values(|f: FileAttestation| f@)
}

impl View for AuthorshipMetadata {
    type V = MetadataView;

    open spec fn view(&self) -> MetadataView {
        MetadataView {
            schema_version: self.schema_version@,
            base_commit_sha: self.base_commit_sha@,
            json: self.json@,
        }
    }
}

impl View for AuthorshipLog {
    type V = LogView;

    open spec fn view(&self) -> LogView {
        LogView { attestations: file_views(self.attestations@), metadata: self.metadata@ }
    }
}

// ---- The format ----

/// One comma-separated part of an entry's line list.
pub open spec fn parse_range(part: Seq<char>) -> Option<LineRange> {
    match first_index(part, '-') {
        Some(d) => match (parse_u32(part.take(d)), parse_u32(part.skip(d + 1))) {
            (Some(a), Some(b)) => Some(LineRange::Range(a, b)),
            _ => None,
        },
        None => match parse_u32(part) {
            Some(n) => Some(LineRange::Single(n)),
            None => None,
        },
    }
}

/// The line ranges of `parts`, where empty parts are skipped.
pub open spec fn parse_range_parts(parts: Seq<Seq<char>>) -> Option<Seq<LineRange>>
    decreases parts.len(),
{
    if parts.len() == 0 {
        Some(Seq::empty())
    } else {
        match parse_range_parts(parts.drop_last()) {
            None => None,
            Some(ranges) => if parts.last().len() == 0 {
                Some(ranges)
            } else {
                match parse_range(parts.last()) {
                    Some(r) => Some(ranges.push(r)),
                    None => None,
                }
            },
        }
    }
}

/// A comma-separated list of line numbers and line ranges.
pub open spec fn parse_ranges(s: Seq<char>) -> Option<Seq<LineRange>> {
    parse_range_parts(split_on(s, ','))
}

/// An entry line without its indent: the hash, a space, the line list.
pub open spec fn parse_entry(e: Seq<char>) -> Option<EntryView> {
    match first_index(e, ' ') {
        None => None,
        Some(p) => match parse_ranges(e.skip(p + 1)) {
            Some(ranges) => Some(EntryView { hash: e.take(p), line_ranges: ranges }),
            None => None,
        },
    }
}

/// A path line, with its double quotes taken off.
pub open spec fn unquote(l: Seq<char>) -> Seq<char> {
    if l.len() >= 2 && l[0] == '"' && l.last() == '"' {
        l.subrange(1, l.len() - 1)
    } else {
        l
    }
}

/// Whether a (trimmed) line is an entry line.
pub open spec fn is_entry_line(l: Seq<char>) -> bool {
    l.len() >= 2 && l[0] == ' ' && l[1] == ' '
}

/// Where the reading of an attestation section stands after some lines.
pub struct SectionState {
    pub done: Seq<FileView>,
    pub current: Option<FileView>,
    pub failed: bool,
}

/// `done` with the file being read appended, when it has entries.
pub open spec fn close_file(done: Seq<FileView>, current: Option<FileView>) -> Seq<FileView> {
    match current {
        Some(f) => if f.entries.len() > 0 {
            done.push(f)
        } else {
            done
        },
        None => done,
    }
}

/// Reads one more line of an attestation section.
pub open spec fn section_step(st: SectionState, line: Seq<char>) -> SectionState {
    let l = trim_end(line);
    if st.failed || l.len() == 0 {
        st
    } else if is_entry_line(l) {
        match (parse_entry(l.skip(2)), st.current) {
            (Some(e), Some(f)) => SectionState {
                current: Some(FileView { path: f.path, entries: f.entries.push(e) }),
                ..st
            },
            _ => SectionState { failed: true, ..st },
        }
    } else {
        SectionState {
            done: close_file(st.done, st.current),
            current: Some(FileView { path: unquote(l), entries: Seq::empty() }),
            failed: false,
        }
    }
}

/// Reads the lines of an attestation section in turn.
pub open spec fn section_run(lines: Seq<Seq<char>>) -> SectionState
    decreases lines.len(),
{
    if lines.len() == 0 {
        SectionState { done: Seq::empty(), current: None, failed: false }
    } else {
        section_step(section_run(lines.drop_last()), lines.last())
    }
}

/// The files of an attestation section, if it is well formed.
pub open spec fn parse_attestation_section(lines: Seq<Seq<char>>) -> Option<Seq<FileView>> {
    let st = section_run(lines);
    if st.failed {
        None
    } else {
        Some(close_file(st.done, st.current))
    }
}

/// The divider line between the attestations and the metadata.
pub open spec fn divider() -> Seq<char> {
    seq!['-', '-', '-']
}

/// The position of the first divider line, if any.
pub open spec fn divider_index(lines: Seq<Seq<char>>) -> Option<int>
    decreases lines.len(),
{
    if lines.len() == 0 {
        None
    } else {
        match divider_index(lines.drop_last()) {
            Some(i) => Some(i),
            None => if lines.last() == divider() {
                Some(lines.len() - 1)
            } else {
                None
            },
        }
    }
}

/// The string member `key` of the JSON object `json`, if `json` is a JSON
/// value that is an object with such a member whose value is a string.
pub uninterp spec fn json_string_member(json: Seq<char>, key: Seq<char>) -> Option<Seq<char>>;

/// The metadata section, if it is a JSON object with string members
/// `schema_version` and `base_commit_sha`.
pub open spec fn parse_metadata(json: Seq<char>) -> Option<MetadataView> {
    match (json_string_member(json, "schema_version"@), json_string_member(json, "base_commit_sha"@)) {
        (Some(v), Some(b)) => Some(MetadataView { schema_version: v, base_commit_sha: b, json }),
        _ => None,
    }
}

/// The authorship log that `text` spells, if it is one.
pub open spec fn parse_authorship_log(text: Seq<char>) -> Option<LogView> {
    let lines = text_lines(text);
    match divider_index(lines) {
        None => None,
        Some(d) => match parse_attestation_section(lines.take(d)) {
            None => None,
            Some(files) => match parse_metadata(join_lines(lines.skip(d + 1))) {
                None => None,
                Some(m) => Some(LogView { attestations: files, metadata: m }),
            },
        },
    }
}

/// The lines of a file's entries: each entry text indented by two spaces.
pub open spec fn indented(entry_texts: Seq<Seq<char>>) -> Seq<Seq<char>> {
    entry_texts.map_values(|e: Seq<char>| seq![' ', ' '] + e)
}

/// Reading a file line and the first `k` of its entry lines leaves that
/// file open with the first `k` entries, in order.
proof fn lemma_section_prefix(
    path_line: Seq<char>,
    entry_texts: Seq<Seq<char>>,
    entries: Seq<EntryView>,
    k: int,
)
    requires
        path_line.len() > 0,
        trim_end(path_line) == path_line,
        !is_entry_line(path_line),
        entry_texts.len() == entries.len(),
        0 <= k <= entries.len(),
        forall|i: int|
            0 <= i < entry_texts.len() ==> trim_end(#[trigger] indented(entry_texts)[i]) == indented(
                entry_texts,
            )[i] && parse_entry(entry_texts[i]) == Some(entries[i]),
    ensures
        section_run(seq![path_line] + indented(entry_texts).take(k)) == (SectionState {
            done: Seq::empty(),
            current: Some(FileView { path: unquote(path_line), entries: entries.take(k) }),
            failed: false,
        }),
    decreases k,
{
    let lines = seq![path_line] + indented(entry_texts).take(k);
    if k == 0 {
        assert(lines =~= seq![path_line]);
        assert(lines.drop_last() =~= Seq::<Seq<char>>::empty());
        assert(entries.take(0) =~= Seq::<EntryView>::empty());
        assert(lines.last() == path_line);
        let empty_st = SectionState { done: Seq::empty(), current: None, failed: false };
        assert(section_run(lines.drop_last()) == empty_st);
        assert(close_file(Seq::empty(), None) == Seq::<FileView>::empty());
        assert(section_run(lines) == section_step(empty_st, path_line));
    } else {
        lemma_section_prefix(path_line, entry_texts, entries, k - 1);
        assert(lines.drop_last() =~= seq![path_line] + indented(entry_texts).take(k - 1));
        let line = indented(entry_texts)[k - 1];
        assert(lines.last() == line);
        assert(line == seq![' ', ' '] + entry_texts[k - 1]);
        assert(trim_end(line) == line);
        assert(line.skip(2) =~= entry_texts[k - 1]);
        assert(entries.take(k - 1).push(entries[k - 1]) =~= entries.take(k));
        assert(parse_entry(line.skip(2)) == Some(entries[k - 1]));
        assert(is_entry_line(line));
        assert(section_run(lines) == section_step(section_run(lines.drop_last()), line));
    }
}

/// An attestation section made of one file line and the file's entry lines
/// (each indented by two spaces, none ending in white space) gives that one
/// file, with every entry, in the order of the lines.
pub proof fn law_section_keeps_every_entry(
    path_line: Seq<char>,
    entry_texts: Seq<Seq<char>>,
    entries: Seq<EntryView>,
)
    requires
        path_line.len() > 0,
        trim_end(path_line) == path_line,
        !is_entry_line(path_line),
        entry_texts.len() == entries.len(),
        entries.len() > 0,
        forall|i: int|
            0 <= i < entry_texts.len() ==> trim_end(#[trigger] indented(entry_texts)[i]) == indented(
                entry_texts,
            )[i] && parse_entry(entry_texts[i]) == Some(entries[i]),
    ensures
        parse_attestation_section(seq![path_line] + indented(entry_texts)) == Some(
            seq![FileView { path: unquote(path_line), entries }],
        ),
{
    lemma_section_prefix(path_line, entry_texts, entries, entries.len() as int);
    assert(indented(entry_texts).take(entries.len() as int) =~= indented(entry_texts));
    assert(entries.take(entries.len() as int) =~= entries);
    assert(close_file(Seq::empty(), Some(FileView { path: unquote(path_line), entries })) =~= seq![
        FileView { path: unquote(path_line), entries },
    ]);
}

// ---- Writing a log, and reading it back ----

/// How a line range is written: `n`, or `a-b`.
pub open spec fn range_text(r: LineRange) -> Seq<char> {
    match r {
        LineRange::Single(n) => dec_chars(n as nat),
        LineRange::Range(a, b) => dec_chars(a as nat) + seq!['-'] + dec_chars(b as nat),
    }
}

/// How a list of line ranges is written: comma-separated.
pub open spec fn ranges_text(rs: Seq<LineRange>) -> Seq<char>
    decreases rs.len(),
{
    if rs.len() == 0 {
        Seq::empty()
    } else if rs.len() == 1 {
        range_text(rs[0])
    } else {
        ranges_text(rs.drop_last()) + seq![','] + range_text(rs.last())
    }
}

/// How an entry is written, without its indent: the hash, a space, the
/// line ranges.
pub open spec fn entry_text(e: EntryView) -> Seq<char> {
    e.hash + seq![' '] + ranges_text(e.line_ranges)
}

/// A character that is absent from `s` is found nowhere in it.
proof fn lemma_first_index_absent(s: Seq<char>, c: char)
    requires
        !s.contains(c),
    ensures
        first_index(s, c) is None,
    decreases s.len(),
{
    if s.len() > 0 {
        assert(!s.drop_last().contains(c)) by {
            if s.drop_last().contains(c) {
                let i = choose|i: int| 0 <= i < s.drop_last().len() && s.drop_last()[i] == c;
                assert(s[i] == c);
            }
        }
        lemma_first_index_absent(s.drop_last(), c);
        assert(s[s.len() - 1] != c);
    }
}

/// In `x + y`, where `x` lacks `c` and `y` starts with it, `c` is first
/// found where `y` starts.
proof fn lemma_first_index_at(x: Seq<char>, y: Seq<char>, c: char)
    requires
        !x.contains(c),
        y.len() > 0,
        y[0] == c,
    ensures
        first_index(x + y, c) == Some(x.len() as int),
    decreases y.len(),
{
    let s = x + y;
    if y.len() == 1 {
        assert(s.drop_last() =~= x);
        lemma_first_index_absent(x, c);
        assert(s.last() == c);
    } else {
        assert(s.drop_last() =~= x + y.drop_last());
        lemma_first_index_at(x, y.drop_last(), c);
    }
}

/// Text without the separator is one piece.
proof fn lemma_split_whole(s: Seq<char>, sep: char)
    requires
        !s.contains(sep),
    ensures
        split_on(s, sep) == seq![s],
    decreases s.len(),
{
    if s.len() == 0 {
        assert(s =~= Seq::<char>::empty());
    } else {
        assert(!s.drop_last().contains(sep)) by {
            if s.drop_last().contains(sep) {
                let i = choose|i: int| 0 <= i < s.drop_last().len() && s.drop_last()[i] == sep;
                assert(s[i] == sep);
            }
        }
        lemma_split_whole(s.drop_last(), sep);
        assert(s.last() != sep) by {
            assert(s[s.len() - 1] == s.last());
        }
        assert(s.drop_last().push(s.last()) =~= s);
        let before = split_on(s.drop_last(), sep);
        assert(before.len() == 1);
        assert(before.update(before.len() - 1, before.last().push(s.last())) =~= seq![s]);
        assert(split_on(s, sep) == before.update(before.len() - 1, before.last().push(s.last())));
    }
}

/// Splitting at a separator splits the parts on either side.
proof fn lemma_split_concat(x: Seq<char>, y: Seq<char>, sep: char)
    ensures
        split_on(x + seq![sep] + y, sep) == split_on(x, sep) + split_on(y, sep),
    decreases y.len(),
{
    let s = x + seq![sep] + y;
    lemma_split_nonempty(x, sep);
    if y.len() == 0 {
        assert(s.drop_last() =~= x);
        assert(split_on(x, sep).push(Seq::empty()) =~= split_on(x, sep) + seq![Seq::<char>::empty()]);
    } else {
        assert(s.drop_last() =~= x + seq![sep] + y.drop_last());
        lemma_split_concat(x, y.drop_last(), sep);
        lemma_split_nonempty(y.drop_last(), sep);
        let a = split_on(x, sep);
        let b = split_on(y.drop_last(), sep);
        assert(s.last() == y.last());
        if y.last() == sep {
            assert((a + b).push(Seq::empty()) =~= a + b.push(Seq::empty()));
        } else {
            assert((a + b).update((a + b).len() - 1, (a + b).last().push(y.last())) =~= a + b.update(
                b.len() - 1,
                b.last().push(y.last()),
            ));
        }
    }
}

/// The digits written for a number: neither `-`, `,`, `+` nor a blank.
proof fn lemma_dec_plain(n: nat)
    ensures
        dec_chars(n).len() > 0,
        !dec_chars(n).contains('-'),
        !dec_chars(n).contains(','),
        !dec_chars(n).contains(' '),
        dec_chars(n)[0] != '+',
        digits_value(dec_chars(n)) == n,
        forall|i: int| 0 <= i < dec_chars(n).len() ==> is_digit(#[trigger] dec_chars(n)[i]),
    decreases n,
{
    lemma_dec_spells(n);
    if n >= 10 {
        lemma_dec_plain(n / 10);
    }
    assert(forall|i: int| 0 <= i < dec_chars(n).len() ==> is_digit(#[trigger] dec_chars(n)[i]));
}

/// A number written in decimal reads back as itself.
proof fn lemma_u32_reads_back(n: u32)
    ensures
        parse_u32(dec_chars(n as nat)) == Some(n),
{
    lemma_dec_plain(n as nat);
}

/// A written line range reads back as itself.
proof fn lemma_range_reads_back(r: LineRange)
    ensures
        parse_range(range_text(r)) == Some(r),
        range_text(r).len() > 0,
        !range_text(r).contains(','),
        !range_text(r).contains(' '),
        is_digit(range_text(r).last()),
{
    match r {
        LineRange::Single(n) => {
            lemma_dec_plain(n as nat);
            lemma_first_index_absent(dec_chars(n as nat), '-');
            lemma_u32_reads_back(n);
            assert(is_digit(dec_chars(n as nat)[dec_chars(n as nat).len() - 1]));
        },
        LineRange::Range(a, b) => {
            let da = dec_chars(a as nat);
            let db = dec_chars(b as nat);
            lemma_dec_plain(a as nat);
            lemma_dec_plain(b as nat);
            let t = da + seq!['-'] + db;
            lemma_first_index_at(da, seq!['-'] + db, '-');
            assert(t =~= da + (seq!['-'] + db));
            assert(t.take(da.len() as int) =~= da);
            assert(t.skip(da.len() as int + 1) =~= db);
            lemma_u32_reads_back(a);
            lemma_u32_reads_back(b);
            assert(!t.contains(',')) by {
                if t.contains(',') {
                    let i = choose|i: int| 0 <= i < t.len() && t[i] == ',';
                    if i < da.len() {
                        assert(da[i] == ',');
                    } else if i > da.len() {
                        assert(db[i - da.len() - 1] == ',');
                    }
                }
            }
            assert(!t.contains(' ')) by {
                if t.contains(' ') {
                    let i = choose|i: int| 0 <= i < t.len() && t[i] == ' ';
                    if i < da.len() {
                        assert(da[i] == ' ');
                    } else if i > da.len() {
                        assert(db[i - da.len() - 1] == ' ');
                    }
                }
            }
            assert(t.last() == db[db.len() - 1]);
        },
    }
}

/// A written list of line ranges splits into the written ranges.
proof fn lemma_ranges_split(rs: Seq<LineRange>)
    requires
        rs.len() > 0,
    ensures
        split_on(ranges_text(rs), ',') == rs.map_values(|r: LineRange| range_text(r)),
        !ranges_text(rs).contains(' '),
        is_digit(ranges_text(rs).last()),
    decreases rs.len(),
{
    lemma_range_reads_back(rs.last());
    if rs.len() == 1 {
        lemma_range_reads_back(rs[0]);
        lemma_split_whole(range_text(rs[0]), ',');
        assert(rs.map_values(|r: LineRange| range_text(r)) =~= seq![range_text(rs[0])]);
    } else {
        lemma_ranges_split(rs.drop_last());
        let x = ranges_text(rs.drop_last());
        let y = range_text(rs.last());
        lemma_split_concat(x, y, ',');
        lemma_split_whole(y, ',');
        assert(rs.map_values(|r: LineRange| range_text(r)) =~= rs.drop_last().map_values(
            |r: LineRange| range_text(r),
        ) + seq![y]);
        let t = x + seq![','] + y;
        assert(!t.contains(' ')) by {
            if t.contains(' ') {
                let i = choose|i: int| 0 <= i < t.len() && t[i] == ' ';
                if i < x.len() {
                    assert(x[i] == ' ');
                } else if i > x.len() {
                    assert(y[i - x.len() - 1] == ' ');
                }
            }
        }
        assert(t.last() == y.last());
    }
}

/// Written line ranges read back as themselves.
proof fn lemma_range_parts_read_back(rs: Seq<LineRange>)
    ensures
        parse_range_parts(rs.map_values(|r: LineRange| range_text(r))) == Some(rs),
    decreases rs.len(),
{
    if rs.len() > 0 {
        let parts = rs.map_values(|r: LineRange| range_text(r));
        assert(parts.drop_last() =~= rs.drop_last().map_values(|r: LineRange| range_text(r)));
        lemma_range_parts_read_back(rs.drop_last());
        lemma_range_reads_back(rs.last());
        assert(parts.last() == range_text(rs.last()));
        assert(rs.drop_last().push(rs.last()) =~= rs);
    } else {
        assert(rs.map_values(|r: LineRange| range_text(r)) =~= Seq::<Seq<char>>::empty());
    }
}

/// A written entry reads back as itself, when its hash holds no blank and
/// it has at least one line range.
pub proof fn law_entry_reads_back(e: EntryView)
    requires
        !e.hash.contains(' '),
        e.line_ranges.len() > 0,
    ensures
        parse_entry(entry_text(e)) == Some(e),
        is_digit(entry_text(e).last()),
{
    let t = entry_text(e);
    let rt = ranges_text(e.line_ranges);
    lemma_first_index_at(e.hash, seq![' '] + rt, ' ');
    assert(t =~= e.hash + (seq![' '] + rt));
    assert(t.skip(e.hash.len() as int + 1) =~= rt);
    assert(t.take(e.hash.len() as int) =~= e.hash);
    lemma_ranges_split(e.line_ranges);
    lemma_range_parts_read_back(e.line_ranges);
    assert(t.last() == rt.last());
}

/// How a file's path is written on its line: in double quotes when it
/// holds a blank.
pub open spec fn path_text(path: Seq<char>) -> Seq<char> {
    if path.contains(' ') {
        seq!['"'] + path + seq!['"']
    } else {
        path
    }
}

/// The lines of a file: its path line, then each entry, indented by two
/// spaces.
pub open spec fn file_lines(f: FileView) -> Seq<Seq<char>> {
    seq![path_text(f.path)] + indented(f.entries.map_values(|e: EntryView| entry_text(e)))
}

/// The lines of an attestation section: the lines of each file in turn.
pub open spec fn section_lines(files: Seq<FileView>) -> Seq<Seq<char>>
    decreases files.len(),
{
    if files.len() == 0 {
        Seq::empty()
    } else {
        section_lines(files.drop_last()) + file_lines(files.last())
    }
}

/// Whether a file can be written in the format: a path that is not empty,
/// holds no double quote, neither starts with a blank nor ends with white
/// space and is not a divider, and at least one entry, each with a hash
/// without blanks and at least one line range.
pub open spec fn writable_file(f: FileView) -> bool {
    &&& f.path.len() > 0
    &&& !f.path.contains('"')
    &&& f.path[0] != ' '
    &&& !is_white_space(f.path.last())
    &&& f.path != divider()
    &&& f.entries.len() > 0
    &&& forall|i: int|
        0 <= i < f.entries.len() ==> !(#[trigger] f.entries[i]).hash.contains(' ')
            && f.entries[i].line_ranges.len() > 0
}

/// A writable file's path line is a path line that reads back as the path.
proof fn lemma_path_line(f: FileView)
    requires
        writable_file(f),
    ensures
        path_text(f.path).len() > 0,
        trim_end(path_text(f.path)) == path_text(f.path),
        !is_entry_line(path_text(f.path)),
        unquote(path_text(f.path)) == f.path,
        path_text(f.path) != divider(),
{
    let t = path_text(f.path);
    if f.path.contains(' ') {
        assert(t.last() == '"');
        assert(t[0] == '"');
        assert(t.subrange(1, t.len() - 1) =~= f.path);
        assert(t != divider()) by {
            assert(divider()[0] == '-');
        }
    } else {
        assert(f.path.last() == f.path[f.path.len() - 1]);
        if f.path.len() >= 2 && f.path[0] == '"' {
            assert(f.path.contains('"'));
        }
    }
}

/// Reading a writable file's path line and its first `k` entry lines, after
/// lines that read without failing, closes the file read before and leaves
/// this one open with its first `k` entries.
#[verifier::spinoff_prover]
#[verifier::rlimit(40)]
proof fn lemma_file_prefix(prefix: Seq<Seq<char>>, f: FileView, k: int)
    requires
        !section_run(prefix).failed,
        writable_file(f),
        0 <= k <= f.entries.len(),
    ensures
        section_run(prefix + file_lines(f).take(k + 1)) == (SectionState {
            done: close_file(section_run(prefix).done, section_run(prefix).current),
            current: Some(FileView { path: f.path, entries: f.entries.take(k) }),
            failed: false,
        }),
    decreases k,
{
    let lines = prefix + file_lines(f).take(k + 1);
    lemma_path_line(f);
    if k == 0 {
        assert(lines.drop_last() =~= prefix);
        assert(lines.last() == path_text(f.path));
        assert(f.entries.take(0) =~= Seq::<EntryView>::empty());
    } else {
        lemma_file_prefix(prefix, f, k - 1);
        assert(lines.drop_last() =~= prefix + file_lines(f).take(k));
        let e = f.entries[k - 1];
        assert(!e.hash.contains(' ') && e.line_ranges.len() > 0);
        law_entry_reads_back(e);
        let line = seq![' ', ' '] + entry_text(e);
        assert(lines.last() == line);
        assert(line.last() == entry_text(e).last());
        assert(trim_end(line) == line);
        assert(line.skip(2) =~= entry_text(e));
        assert(is_entry_line(line));
        assert(f.entries.take(k - 1).push(e) =~= f.entries.take(k));
    }
}

/// Reading the lines of writable files leaves all but the last closed and
/// the last open with all its entries.
proof fn lemma_section_lines_run(files: Seq<FileView>)
    requires
        files.len() > 0,
        forall|i: int| 0 <= i < files.len() ==> writable_file(#[trigger] files[i]),
    ensures
        section_run(section_lines(files)) == (SectionState {
            done: files.drop_last(),
            current: Some(files.last()),
            failed: false,
        }),
    decreases files.len(),
{
    let f = files.last();
    assert(writable_file(files[files.len() - 1]));
    let prefix = section_lines(files.drop_last());
    if files.len() > 1 {
        assert forall|i: int| 0 <= i < files.drop_last().len() implies writable_file(
            #[trigger] files.drop_last()[i],
        ) by {
            assert(files.drop_last()[i] == files[i]);
        }
        lemma_section_lines_run(files.drop_last());
        assert(writable_file(files[files.len() - 2]));
        assert(files.drop_last().drop_last().push(files.drop_last().last()) =~= files.drop_last());
    } else {
        assert(prefix =~= Seq::<Seq<char>>::empty());
        assert(files.drop_last() =~= Seq::<FileView>::empty());
    }
    let n = f.entries.len() as int;
    lemma_file_prefix(prefix, f, n);
    assert(file_lines(f).take(n + 1) =~= file_lines(f));
    assert(f.entries.take(n) =~= f.entries);
}

/// Writing the files of an attestation section and reading the lines back
/// gives the same files, each with all its entries, in order.
pub proof fn law_section_reads_back(files: Seq<FileView>)
    requires
        forall|i: int| 0 <= i < files.len() ==> writable_file(#[trigger] files[i]),
    ensures
        parse_attestation_section(section_lines(files)) == Some(files),
{
    if files.len() == 0 {
        assert(section_lines(files) =~= Seq::<Seq<char>>::empty());
    } else {
        lemma_section_lines_run(files);
        assert(writable_file(files[files.len() - 1]));
        assert(files.drop_last().push(files.last()) =~= files);
    }
}

/// Lines none of which is a divider hold no divider.
proof fn lemma_no_divider(lines: Seq<Seq<char>>)
    requires
        forall|i: int| 0 <= i < lines.len() ==> #[trigger] lines[i] != divider(),
    ensures
        divider_index(lines) is None,
    decreases lines.len(),
{
    if lines.len() > 0 {
        lemma_no_divider(lines.drop_last());
    }
}

/// The first divider is the one after lines that hold none.
proof fn lemma_first_divider(before: Seq<Seq<char>>, after: Seq<Seq<char>>)
    requires
        forall|i: int| 0 <= i < before.len() ==> #[trigger] before[i] != divider(),
    ensures
        divider_index(before + seq![divider()] + after) == Some(before.len() as int),
    decreases after.len(),
{
    let lines = before + seq![divider()] + after;
    if after.len() == 0 {
        assert(lines.drop_last() =~= before);
        lemma_no_divider(before);
    } else {
        lemma_first_divider(before, after.drop_last());
        assert(lines.drop_last() =~= before + seq![divider()] + after.drop_last());
    }
}

/// An authorship log whose attestation section is one file line and that
/// file's entry lines has that one file, with every entry in the order of
/// its line; it is a log exactly when its metadata is.
pub proof fn law_log_keeps_every_entry(
    text: Seq<char>,
    path_line: Seq<char>,
    entry_texts: Seq<Seq<char>>,
    entries: Seq<EntryView>,
    meta_lines: Seq<Seq<char>>,
)
    requires
        path_line.len() > 0,
        trim_end(path_line) == path_line,
        !is_entry_line(path_line),
        path_line != divider(),
        entry_texts.len() == entries.len(),
        entries.len() > 0,
        forall|i: int|
            0 <= i < entry_texts.len() ==> trim_end(#[trigger] indented(entry_texts)[i]) == indented(
                entry_texts,
            )[i] && parse_entry(entry_texts[i]) == Some(entries[i]),
        text_lines(text) == seq![path_line] + indented(entry_texts) + seq![divider()] + meta_lines,
    ensures
        parse_authorship_log(text) == match parse_metadata(join_lines(meta_lines)) {
            Some(m) => Some(
                LogView { attestations: seq![FileView { path: unquote(path_line), entries }], metadata: m },
            ),
            None => None,
        },
{
    let section = seq![path_line] + indented(entry_texts);
    let lines = text_lines(text);
    assert forall|i: int| 0 <= i < section.len() implies #[trigger] section[i] != divider() by {
        if i > 0 {
            assert(section[i] == indented(entry_texts)[i - 1]);
            assert(section[i][0] == ' ');
        }
    }
    lemma_first_divider(section, meta_lines);
    assert(lines.take(section.len() as int) =~= section);
    assert(lines.skip(section.len() as int + 1) =~= meta_lines);
    law_section_keeps_every_entry(path_line, entry_texts, entries);
}

/// No line of writable files is a divider.
proof fn lemma_section_lines_no_divider(files: Seq<FileView>)
    requires
        forall|i: int| 0 <= i < files.len() ==> writable_file(#[trigger] files[i]),
    ensures
        forall|i: int| 0 <= i < section_lines(files).len() ==> #[trigger] section_lines(files)[i] != divider(),
    decreases files.len(),
{
    if files.len() > 0 {
        assert forall|i: int| 0 <= i < files.drop_last().len() implies writable_file(
            #[trigger] files.drop_last()[i],
        ) by {
            assert(files.drop_last()[i] == files[i]);
        }
        lemma_section_lines_no_divider(files.drop_last());
        let f = files.last();
        assert(writable_file(files[files.len() - 1]));
        lemma_path_line(f);
        let before = section_lines(files.drop_last());
        let fl = file_lines(f);
        assert forall|i: int| 0 <= i < section_lines(files).len() implies #[trigger] section_lines(files)[i]
            != divider() by {
            if i < before.len() {
                assert(section_lines(files)[i] == before[i]);
            } else if i > before.len() {
                let l = section_lines(files)[i];
                assert(l == fl[i - before.len()]);
                assert(l[0] == ' ');
                assert(divider()[0] == '-');
            }
        }
    }
}

/// Writing a log (the lines of its files, a divider, then the metadata
/// lines) and reading the text back gives the same files, each with all its
/// entries in order; the text is a log exactly when its metadata is.
pub proof fn law_log_reads_back(text: Seq<char>, files: Seq<FileView>, meta_lines: Seq<Seq<char>>)
    requires
        forall|i: int| 0 <= i < files.len() ==> writable_file(#[trigger] files[i]),
        text_lines(text) == section_lines(files) + seq![divider()] + meta_lines,
    ensures
        parse_authorship_log(text) == match parse_metadata(join_lines(meta_lines)) {
            Some(m) => Some(LogView { attestations: files, metadata: m }),
            None => None,
        },
{
    let section = section_lines(files);
    let lines = text_lines(text);
    lemma_section_lines_no_divider(files);
    lemma_first_divider(section, meta_lines);
    assert(lines.take(section.len() as int) =~= section);
    assert(lines.skip(section.len() as int + 1) =~= meta_lines);
    law_section_reads_back(files);
}

// ---- Reading ----

/// `serde_json::from_str::<serde_json::Value>`, then `Value::get` and
/// `Value::as_str`: the string value of member `key` when `json` parses as a
/// JSON object that has it. What serde_json accepts as JSON is not stated.
#[verifier::external_body]
fn json_string_member_of(json: &str, key: &str) -> (r: Option<String>)
    ensures
        match r {
            Some(v) => json_string_member(json@, key@) == Some(v@),
            None => json_string_member(json@, key@) is None,
        },
{
    let value: serde_json::Value = serde_json::from_str(json).ok()?;
    value.get(key)?.as_str().map(|s| s.to_string())
}

/// Reads one part of a line list.
fn read_range(part: &[char]) -> (r: Option<LineRange>)
    ensures
        r == parse_range(part@),
{
    let n = part.len();
    match find_char(part, '-') {
        Some(d) => {
            let a = parse_u32_chars(&sub_chars(part, 0, d));
            let b = parse_u32_chars(&sub_chars(part, d + 1, n));
            assert(part@.subrange(0, d as int) =~= part@.take(d as int));
            assert(part@.subrange(d + 1, part@.len() as int) =~= part@.skip(d + 1));
            match (a, b) {
                (Some(a), Some(b)) => Some(LineRange::Range(a, b)),
                _ => None,
            }
        },
        None => match parse_u32_chars(part) {
            Some(n) => Some(LineRange::Single(n)),
            None => None,
        },
    }
}

/// Once a part fails, the whole list fails.
proof fn lemma_range_parts_fail(parts: Seq<Seq<char>>, i: int)
    requires
        0 <= i <= parts.len(),
        parse_range_parts(parts.take(i)) is None,
    ensures
        parse_range_parts(parts) is None,
    decreases parts.len() - i,
{
    if i < parts.len() {
        assert(parts.take(i + 1).drop_last() =~= parts.take(i));
        lemma_range_parts_fail(parts, i + 1);
    } else {
        assert(parts.take(i) =~= parts);
    }
}

/// Reads a comma-separated line list.
fn read_ranges(s: &[char]) -> (r: Option<Vec<LineRange>>)
    ensures
        match r {
            Some(v) => parse_ranges(s@) == Some(v@),
            None => parse_ranges(s@) is None,
        },
{
    let parts = split_chars(s, ',');
    let ghost pv = split_on(s@, ',');
    let mut out: Vec<LineRange> = Vec::new();
    let mut i: usize = 0;
    while i < parts.len()
        invariant
            char_views(parts@) == pv,
            pv == split_on(s@, ','),
            i <= parts@.len(),
            parse_range_parts(pv.take(i as int)) == Some(out@),
        decreases parts@.len() - i,
    {
        assert(pv.take(i + 1).drop_last() =~= pv.take(i as int));
        assert(pv[i as int] == parts@[i as int]@);
        assert(pv.take(i + 1).last() == pv[i as int]);
        if parts[i].len() > 0 {
            match read_range(&parts[i]) {
                Some(r) => out.push(r),
                None => {
                    assert(parse_range_parts(pv.take(i + 1)) is None);
                    proof {
                        lemma_range_parts_fail(pv, i + 1);
                    }
                    return None;
                },
            }
        }
        i = i + 1;
    }
    assert(pv.take(i as int) =~= pv);
    Some(out)
}

/// Reads an entry line without its indent.
fn read_entry(e: &[char]) -> (r: Option<AttestationEntry>)
    ensures
        match r {
            Some(entry) => parse_entry(e@) == Some(entry@),
            None => parse_entry(e@) is None,
        },
{
    let n = e.len();
    match find_char(e, ' ') {
        None => None,
        Some(p) => {
            let rest = sub_chars(e, p + 1, n);
            assert(rest@ =~= e@.skip(p + 1));
            match read_ranges(&rest) {
                Some(ranges) => {
                    let hash = sub_chars(e, 0, p);
                    assert(hash@ =~= e@.take(p as int));
                    Some(AttestationEntry { hash: string_from_chars(&hash), line_ranges: ranges })
                },
                None => None,
            }
        },
    }
}

/// Takes the double quotes off a path line.
fn unquote_chars(l: &[char]) -> (out: Vec<char>)
    ensures
        out@ == unquote(l@),
{
    if l.len() >= 2 && l[0] == '"' && l[l.len() - 1] == '"' {
        sub_chars(l, 1, l.len() - 1)
    } else {
        sub_chars(l, 0, l.len())
    }
}

/// The view of an optional file.
pub open spec fn opt_file_view(f: Option<FileAttestation>) -> Option<FileView> {
    match f {
        Some(f) => Some(f@),
        None => None,
    }
}

/// Appends the file being read to `done`, when it has entries.
fn close_file_into(done: &mut Vec<FileAttestation>, current: Option<FileAttestation>)
    ensures
        file_views(final(done)@) == close_file(file_views(old(done)@), opt_file_view(current)),
{
    match current {
        Some(f) => {
            if f.entries.len() > 0 {
                let ghost fv = f@;
                done.push(f);
                assert(file_views(final(done)@) =~= file_views(old(done)@).push(fv));
            }
        },
        None => {},
    }
}

/// Once a line fails, the whole section fails.
proof fn lemma_section_fail(lines: Seq<Seq<char>>, i: int)
    requires
        0 <= i <= lines.len(),
        section_run(lines.take(i)).failed,
    ensures
        section_run(lines).failed,
    decreases lines.len() - i,
{
    if i < lines.len() {
        assert(lines.take(i + 1).drop_last() =~= lines.take(i));
        lemma_section_fail(lines, i + 1);
    } else {
        assert(lines.take(i) =~= lines);
    }
}

/// Reads an attestation section.
fn read_section(lines: &[Vec<char>]) -> (r: Option<Vec<FileAttestation>>)
    ensures
        match r {
            Some(files) => parse_attestation_section(char_views(lines@)) == Some(file_views(files@)),
            None => parse_attestation_section(char_views(lines@)) is None,
        },
{
    let ghost lv = char_views(lines@);
    let mut done: Vec<FileAttestation> = Vec::new();
    let mut current: Option<FileAttestation> = None;
    let mut i: usize = 0;
    assert(lv.take(0) =~= Seq::<Seq<char>>::empty());
    assert(file_views(done@) =~= Seq::<FileView>::empty());
    while i < lines.len()
        invariant
            lv == char_views(lines@),
            i <= lines@.len(),
            section_run(lv.take(i as int)) == (SectionState {
                done: file_views(done@),
                current: opt_file_view(current),
                failed: false,
            }),
        decreases lines@.len() - i,
    {
        assert(lv.take(i + 1).drop_last() =~= lv.take(i as int));
        assert(lv[i as int] == lines@[i as int]@);
        let line = &lines[i];
        let n = trimmed_len(line);
        let l = sub_chars(line, 0, n);
        assert(l@ =~= trim_end(line@));
        if n == 0 {
        } else if n >= 2 && l[0] == ' ' && l[1] == ' ' {
            let body = sub_chars(&l, 2, n);
            assert(body@ =~= l@.skip(2));
            match read_entry(&body) {
                Some(e) => {
                    match current {
                        Some(f) => {
                            let ghost fe = f.entries@;
                            let mut f = f;
                            f.entries.push(e);
                            assert(entry_views(f.entries@) =~= entry_views(fe).push(e@));
                            current = Some(f);
                        },
                        None => {
                            proof {
                                lemma_section_fail(lv, i + 1);
                            }
                            return None;
                        },
                    }
                },
                None => {
                    proof {
                        lemma_section_fail(lv, i + 1);
                    }
                    return None;
                },
            }
        } else {
            let path = unquote_chars(&l);
            close_file_into(&mut done, current);
            current = Some(FileAttestation { file_path: string_from_chars(&path), entries: Vec::new() });
            assert(entry_views(Seq::<AttestationEntry>::empty()) =~= Seq::<EntryView>::empty());
        }
        i = i + 1;
    }
    assert(lv.take(i as int) =~= lv);
    close_file_into(&mut done, current);
    Some(done)
}

/// The position of the first divider line, if any.
fn find_divider(lines: &[Vec<char>]) -> (r: Option<usize>)
    ensures
        match r {
            Some(d) => divider_index(char_views(lines@)) == Some(d as int) && d < lines@.len(),
            None => divider_index(char_views(lines@)) is None,
        },
{
    let ghost lv = char_views(lines@);
    let mut i: usize = 0;
    while i < lines.len()
        invariant
            lv == char_views(lines@),
            i <= lines@.len(),
            divider_index(lv.take(i as int)) is None,
        decreases lines@.len() - i,
    {
        assert(lv.take(i + 1).drop_last() =~= lv.take(i as int));
        assert(lv[i as int] == lines@[i as int]@);
        let line = &lines[i];
        if line.len() == 3 && line[0] == '-' && line[1] == '-' && line[2] == '-' {
            assert(line@ =~= divider());
            proof {
                lemma_divider_prefix(lv, i as int);
            }
            return Some(i);
        }
        assert(line@ != divider()) by {
            if line@ == divider() {
                assert(line@.len() == 3 && line@[0] == '-' && line@[1] == '-' && line@[2] == '-');
            }
        }
        i = i + 1;
    }
    assert(lv.take(i as int) =~= lv);
    None
}

/// A divider found after a prefix without one is the first divider.
proof fn lemma_divider_prefix(lines: Seq<Seq<char>>, i: int)
    requires
        0 <= i < lines.len(),
        divider_index(lines.take(i)) is None,
        lines[i] == divider(),
    ensures
        divider_index(lines) == Some(i),
    decreases lines.len(),
{
    if i == lines.len() - 1 {
        assert(lines.drop_last() =~= lines.take(i));
    } else {
        assert(lines.drop_last().take(i) =~= lines.take(i));
        lemma_divider_prefix(lines.drop_last(), i);
    }
}

/// Reads an authorship log from the text of a note.
pub fn read_authorship_log(text: &str) -> (r: Option<AuthorshipLog>)
    ensures
        match r {
            Some(log) => parse_authorship_log(text@) == Some(log@),
            None => parse_authorship_log(text@) is None,
        },
{
    let chars = chars_of(text);
    let lines = lines_of(&chars);
    let ghost lv = char_views(lines@);
    let nl = lines.len();
    let d = match find_divider(&lines) {
        Some(d) => d,
        None => return None,
    };
    let mut head: Vec<Vec<char>> = Vec::new();
    let mut i: usize = 0;
    while i < d
        invariant
            d < lines@.len(),
            i <= d,
            char_views(head@) == lv.take(i as int),
            lv == char_views(lines@),
        decreases d - i,
    {
        let ghost before = head@;
        head.push(lines[i].clone());
        assert(char_views(head@) =~= lv.take(i + 1)) by {
            assert(char_views(head@) =~= char_views(before).push(lines@[i as int]@));
        }
        i = i + 1;
    }
    let files = match read_section(&head) {
        Some(f) => f,
        None => return None,
    };
    let mut tail: Vec<Vec<char>> = Vec::new();
    let mut j: usize = d + 1;
    while j < lines.len()
        invariant
            d < lines@.len(),
            d + 1 <= j <= lines@.len(),
            char_views(tail@) == lv.subrange(d + 1, j as int),
            lv == char_views(lines@),
        decreases lines@.len() - j,
    {
        let ghost before = tail@;
        tail.push(lines[j].clone());
        assert(char_views(tail@) =~= lv.subrange(d + 1, j + 1)) by {
            assert(char_views(tail@) =~= char_views(before).push(lines@[j as int]@));
        }
        j = j + 1;
    }
    assert(lv.subrange(d + 1, lines@.len() as int) =~= lv.skip(d + 1));
    let json_chars = join_with_line_feeds(&tail);
    let json = string_from_chars(&json_chars);
    let version = match json_string_member_of(json.as_str(), "schema_version") {
        Some(v) => v,
        None => return None,
    };
    let base = match json_string_member_of(json.as_str(), "base_commit_sha") {
        Some(b) => b,
        None => return None,
    };
    Some(AuthorshipLog {
        attestations: files,
        metadata: AuthorshipMetadata { schema_version: version, base_commit_sha: base, json },
    })
}

} // verus!
