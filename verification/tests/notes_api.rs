use git_ai_notes::authorship::{read_authorship_log, LineRange};
use git_ai_notes::error::GitAiError;
use git_ai_notes::git_output::{commit_log_line, notes_list_line, object_format_named};
use git_ai_notes::notes_api::{
    commits_with_notes, filter_commits_with_notes, read_authorship, read_authorship_v3,
    read_note, read_note_blob_oids, search_notes, write_note, write_notes_batch,
    CommitAuthorship,
};
use git_ai_notes::oid::{blob_oid, ObjectFormat};
use git_ai_notes::repository::Repository;

const C1: &str = "1111111111111111111111111111111111111111";
const C2: &str = "2222222222222222222222222222222222222222";
const C3: &str = "3333333333333333333333333333333333333333";
const UNKNOWN: &str = "9999999999999999999999999999999999999999";

const LOG_V3: &str = "src/main.rs\n  abcd1234abcd1234 1-10,15\n\"my file.txt\"\n  ffff0000ffff0000 3\n---\n{\n  \"schema_version\": \"authorship/3.0.0\",\n  \"base_commit_sha\": \"base\",\n  \"prompts\": {}\n}";

fn repo() -> Repository {
    let mut r = Repository::new();
    r.add_commit(C1, "Ada <ada@example.com>").unwrap();
    r.add_commit(C2, "Bob <bob@example.com>").unwrap();
    r.add_commit(C3, "Cy <cy@example.com>").unwrap();
    r
}

fn shas(list: &[&str]) -> Vec<String> {
    list.iter().map(|s| s.to_string()).collect()
}

#[test]
fn read_after_write_gives_back_the_note() {
    let mut r = repo();
    assert!(write_note(&mut r, C1, "hello").is_ok());
    assert_eq!(read_note(&r, C1), Some("hello".to_string()));
}

#[test]
fn read_of_unwritten_note_is_none() {
    let r = repo();
    assert_eq!(read_note(&r, C1), None);
    assert_eq!(read_note(&r, UNKNOWN), None);
}

#[test]
fn write_leaves_other_notes_alone() {
    let mut r = repo();
    write_note(&mut r, C1, "one").unwrap();
    write_note(&mut r, C2, "two").unwrap();
    assert_eq!(read_note(&r, C1), Some("one".to_string()));
    assert_eq!(read_note(&r, C3), None);
}

#[test]
fn last_write_wins() {
    let mut r = repo();
    write_note(&mut r, C1, "first").unwrap();
    write_note(&mut r, C1, "second").unwrap();
    assert_eq!(read_note(&r, C1), Some("second".to_string()));
}

#[test]
fn write_to_unknown_commit_fails_and_changes_nothing() {
    let mut r = repo();
    match write_note(&mut r, UNKNOWN, "x") {
        Err(GitAiError::UnknownCommit { commit_sha }) => assert_eq!(commit_sha, UNKNOWN),
        other => panic!("unexpected {:?}", other),
    }
    assert_eq!(read_note(&r, UNKNOWN), None);
    assert_eq!(commits_with_notes(&r, &shas(&[C1, C2, C3, UNKNOWN])).unwrap(), Vec::<String>::new());
}

#[test]
fn batch_writes_in_order_last_entry_wins() {
    let mut r = repo();
    write_note(&mut r, C3, "kept").unwrap();
    let entries = vec![
        (C1.to_string(), "a".to_string()),
        (C2.to_string(), "b".to_string()),
        (C1.to_string(), "c".to_string()),
    ];
    assert!(write_notes_batch(&mut r, &entries).is_ok());
    assert_eq!(read_note(&r, C1), Some("c".to_string()));
    assert_eq!(read_note(&r, C2), Some("b".to_string()));
    assert_eq!(read_note(&r, C3), Some("kept".to_string()));
}

#[test]
fn empty_batch_is_accepted() {
    let mut r = repo();
    assert!(write_notes_batch(&mut r, &[]).is_ok());
    assert_eq!(read_note(&r, C1), None);
}

#[test]
fn single_entry_batch_is_a_write() {
    let mut a = repo();
    let mut b = repo();
    write_notes_batch(&mut a, &[(C2.to_string(), "n".to_string())]).unwrap();
    write_note(&mut b, C2, "n").unwrap();
    assert_eq!(read_note(&a, C2), read_note(&b, C2));
}

#[test]
fn batch_with_unknown_commit_writes_nothing() {
    let mut r = repo();
    let entries = vec![
        (C1.to_string(), "a".to_string()),
        (UNKNOWN.to_string(), "b".to_string()),
        ("8888".to_string(), "c".to_string()),
    ];
    match write_notes_batch(&mut r, &entries) {
        Err(GitAiError::UnknownCommit { commit_sha }) => assert_eq!(commit_sha, UNKNOWN),
        other => panic!("unexpected {:?}", other),
    }
    assert_eq!(read_note(&r, C1), None);
}

#[test]
fn commits_with_notes_keeps_listed_noted_commits_once() {
    let mut r = repo();
    write_note(&mut r, C1, "a").unwrap();
    write_note(&mut r, C3, "c").unwrap();
    let got = commits_with_notes(&r, &shas(&[C3, C2, C1, C3, UNKNOWN])).unwrap();
    assert_eq!(got, shas(&[C3, C1]));
    assert_eq!(commits_with_notes(&r, &[]).unwrap(), Vec::<String>::new());
}

#[test]
fn blob_oid_of_known_contents() {
    assert_eq!(blob_oid(ObjectFormat::Sha1, ""), "e69de29bb2d1d6434b8b29ae775ad8c2e48c5391");
    assert_eq!(blob_oid(ObjectFormat::Sha1, "hello world\n"), "3b18e512dba79e4c8300dd08aeb37f8e728b8dad");
}

#[test]
fn blob_oid_is_forty_lowercase_hex_digits() {
    let oid = blob_oid(ObjectFormat::Sha1, "some note text \u{e9}\u{1F600}");
    assert_eq!(oid.len(), 40);
    assert!(oid.chars().all(|c| c.is_ascii_digit() || ('a'..='f').contains(&c)));
    assert_eq!(oid, blob_oid(ObjectFormat::Sha1, "some note text \u{e9}\u{1F600}"));
    assert_ne!(oid, blob_oid(ObjectFormat::Sha1, "some note text"));
}

#[test]
fn note_blob_oids_follow_the_notes() {
    let mut r = repo();
    write_note(&mut r, C2, "hello world\n").unwrap();
    r.load_note(C1, "").unwrap(); // an empty note, as `git notes add --allow-empty` stores it
    let got = read_note_blob_oids(&r, &shas(&[C2, C3, C1, C2])).unwrap();
    assert_eq!(
        got,
        vec![
            (C2.to_string(), "3b18e512dba79e4c8300dd08aeb37f8e728b8dad".to_string()),
            (C1.to_string(), "e69de29bb2d1d6434b8b29ae775ad8c2e48c5391".to_string()),
        ]
    );
}

#[test]
fn search_finds_notes_containing_the_pattern() {
    let mut r = repo();
    write_note(&mut r, C1, "alpha beta").unwrap();
    write_note(&mut r, C2, "gamma").unwrap();
    write_note(&mut r, C3, "betamax").unwrap();
    let mut got = search_notes(&r, "beta").unwrap();
    got.sort();
    assert_eq!(got, shas(&[C1, C3]));
    assert_eq!(search_notes(&r, "delta").unwrap(), Vec::<String>::new());
}

#[test]
fn empty_pattern_matches_every_note_with_a_line() {
    let mut r = repo();
    write_note(&mut r, C1, "").unwrap();
    write_note(&mut r, C2, "x").unwrap();
    write_note(&mut r, C3, "y\nz").unwrap();
    let mut got = search_notes(&r, "").unwrap();
    got.sort();
    assert_eq!(got, shas(&[C2, C3]));
}

#[test]
fn search_uses_basic_regular_expressions_per_line() {
    let mut r = repo();
    write_note(&mut r, C1, "abc").unwrap();
    write_note(&mut r, C2, "x^a").unwrap();
    write_note(&mut r, C3, "top\ncd end").unwrap();
    assert_eq!(search_notes(&r, "a.c").unwrap(), shas(&[C1]));
    assert_eq!(search_notes(&r, "^a").unwrap(), shas(&[C1]));
    assert_eq!(search_notes(&r, "x\\^a").unwrap(), shas(&[C2]));
    assert_eq!(search_notes(&r, "x^a").unwrap(), shas(&[C2]));
    assert_eq!(search_notes(&r, "^cd").unwrap(), shas(&[C3]));
    assert_eq!(search_notes(&r, "top$").unwrap(), shas(&[C3]));
    assert_eq!(search_notes(&r, "p.cd").unwrap(), Vec::<String>::new()); // no match across lines
    assert_eq!(search_notes(&r, "^ab*c$").unwrap(), shas(&[C1]));
    assert_eq!(search_notes(&r, "^ab*x*c$").unwrap(), shas(&[C1]));
    assert_eq!(search_notes(&r, "[0-9]").unwrap(), Vec::<String>::new());
    assert_eq!(search_notes(&r, "[^a-z ]").unwrap(), shas(&[C2]));
    assert_eq!(search_notes(&r, "^[]x]").unwrap(), shas(&[C2]));
    assert_eq!(search_notes(&r, "*a").unwrap(), Vec::<String>::new()); // leading '*' is literal
}

#[test]
fn malformed_patterns_are_refused() {
    let r = repo();
    for p in [
        "[abc", "[z-a]", "ab\\", "\\(a", "a\\)", "a\\{2", "a\\{3,2\\}", "\\1", "\\(a\\)\\2",
        "[[:nope:]]", "\\{1\\}", "a\\{99999\\}", "a\\{x\\}", "[[=ab=]]", "[[:alpha:]",
    ] {
        match search_notes(&r, p) {
            Err(GitAiError::InvalidPattern { pattern }) => assert_eq!(pattern, p),
            other => panic!("unexpected {:?} for {}", other, p),
        }
    }
}

#[test]
fn full_basic_regular_expressions() {
    let mut r = repo();
    write_note(&mut r, C1, "abab cat 12").unwrap();
    write_note(&mut r, C2, "aaa dog-x").unwrap();
    write_note(&mut r, C3, "a.b [x] *star").unwrap();
    let find = |p: &str| {
        let mut v = search_notes(&r, p).unwrap();
        v.sort();
        v
    };
    assert_eq!(find("\\(ab\\)\\1"), shas(&[C1]));
    assert_eq!(find("^\\(a\\)\\1\\{2\\} "), shas(&[C2]));
    assert_eq!(find("a\\{2,3\\}"), shas(&[C2]));
    assert_eq!(find("a\\{,1\\}b"), shas(&[C1, C3]));
    assert_eq!(find("cat\\|dog"), shas(&[C1, C2]));
    assert_eq!(find("[[:digit:]]\\+$"), shas(&[C1]));
    assert_eq!(find("\\<dog\\>"), shas(&[C2]));
    assert_eq!(find("\\<do\\>"), Vec::<String>::new());
    assert_eq!(find("x\\?\\]"), shas(&[C3]));
    assert_eq!(find("a\\.b"), shas(&[C3]));
    assert_eq!(find("[[.-.]]x"), shas(&[C2]));
    assert_eq!(find("[[=x=]]"), shas(&[C2, C3]));
    assert_eq!(find(" \\*star"), shas(&[C3]));
    assert_eq!(find("\\w\\+-\\w"), shas(&[C2]));
    assert_eq!(find("a**b"), shas(&[C1, C3]));
    assert_eq!(find("\\(a*\\)*b"), shas(&[C1, C3]));
    assert_eq!(find("[^[:alpha:][:space:]]"), shas(&[C1, C2, C3]));
}

#[test]
fn search_finds_a_written_marker() {
    let mut r = repo();
    write_note(&mut r, C2, "zq-marker-7731").unwrap();
    assert!(search_notes(&r, "zq-marker-7731").unwrap().contains(&C2.to_string()));
}

#[test]
fn blank_notes_are_removed() {
    let mut r = repo();
    write_note(&mut r, C1, "something").unwrap();
    write_note(&mut r, C1, "   ").unwrap();
    assert_eq!(read_note(&r, C1), None);
    assert_eq!(commits_with_notes(&r, &shas(&[C1])).unwrap(), Vec::<String>::new());
    write_notes_batch(&mut r, &[(C2.to_string(), "x".to_string()), (C2.to_string(), "\n\t\n".to_string())]).unwrap();
    assert_eq!(read_note(&r, C2), None);
}

#[test]
fn search_skips_notes_with_nul() {
    let mut r = repo();
    write_note(&mut r, C1, "bin\0ary").unwrap();
    assert_eq!(search_notes(&r, "bin").unwrap(), Vec::<String>::new());
}

#[test]
fn search_results_are_commit_ids() {
    let mut r = repo();
    write_note(&mut r, C2, "x").unwrap();
    for sha in search_notes(&r, "x").unwrap() {
        assert_eq!(sha.len(), 40);
        assert!(sha.chars().all(|c| c.is_ascii_digit() || ('a'..='f').contains(&c)));
    }
}

#[test]
fn commit_ids_must_be_full_lowercase_hex() {
    let mut r = Repository::new();
    for bad in ["abc", "ABCDEF0123456789ABCDEF0123456789ABCDEF01", "g111111111111111111111111111111111111111"] {
        match r.add_commit(bad, "A <a@b>") {
            Err(GitAiError::InvalidCommitId { commit_sha }) => assert_eq!(commit_sha, bad),
            other => panic!("unexpected {:?}", other),
        }
        assert!(!r.has_commit(bad));
    }
    assert!(r.add_commit(C1, "A <a@b>").is_ok());
}

#[test]
fn written_notes_are_cleaned_as_git_cleans_them() {
    let mut r = repo();
    write_note(&mut r, C1, "\n\n  first  \t\n\n\n second \r\n\n\n").unwrap();
    assert_eq!(read_note(&r, C1), Some("first\n\n second".to_string()));
    // The stored blob is the cleaned text, with its final line feed.
    let oids = read_note_blob_oids(&r, &shas(&[C1])).unwrap();
    assert_eq!(oids[0].1, blob_oid(ObjectFormat::Sha1, "  first\n\n second\n"));
    write_note(&mut r, C2, "hello world").unwrap();
    assert_eq!(
        read_note_blob_oids(&r, &shas(&[C2])).unwrap()[0].1,
        "3b18e512dba79e4c8300dd08aeb37f8e728b8dad"
    );
    write_note(&mut r, C3, " \n\t\n").unwrap();
    assert_eq!(read_note(&r, C3), None);
}

#[test]
fn written_authorship_log_reads_back() {
    let mut r = repo();
    let text = format!("{}\n", LOG_V3);
    write_note(&mut r, C1, &text).unwrap();
    let log = read_authorship(&r, C1).expect("a log");
    let direct = read_authorship_log(LOG_V3).expect("a log");
    assert_eq!(log.attestations.len(), direct.attestations.len());
    assert_eq!(log.attestations[0].entries[0].line_ranges, direct.attestations[0].entries[0].line_ranges);
    assert_eq!(log.metadata.json, direct.metadata.json);
}

#[test]
fn git_output_lines() {
    assert_eq!(
        commit_log_line("1111111111111111111111111111111111111111\0Ada <ada@x>"),
        Some(("1111111111111111111111111111111111111111".to_string(), "Ada <ada@x>".to_string()))
    );
    assert_eq!(commit_log_line("no separator"), None);
    assert_eq!(notes_list_line("aaaa bbbb"), Some(("aaaa".to_string(), "bbbb".to_string())));
    assert_eq!(notes_list_line("nospace"), None);
}

#[test]
fn search_pattern_longer_than_note() {
    let mut r = repo();
    write_note(&mut r, C1, "ab").unwrap();
    assert_eq!(search_notes(&r, "abc").unwrap(), Vec::<String>::new());
}

#[test]
fn parses_an_authorship_log() {
    let log = read_authorship_log(LOG_V3).expect("a log");
    assert_eq!(log.attestations.len(), 2);
    assert_eq!(log.attestations[0].file_path, "src/main.rs");
    assert_eq!(log.attestations[0].entries[0].hash, "abcd1234abcd1234");
    assert_eq!(
        log.attestations[0].entries[0].line_ranges,
        vec![LineRange::Range(1, 10), LineRange::Single(15)]
    );
    assert_eq!(log.attestations[1].file_path, "my file.txt");
    assert_eq!(log.attestations[1].entries[0].line_ranges, vec![LineRange::Single(3)]);
    assert_eq!(log.metadata.schema_version, "authorship/3.0.0");
    assert_eq!(log.metadata.base_commit_sha, "base");
}

#[test]
fn log_parsing_edge_cases() {
    // Blank lines, trailing white space, CRLF line ends, empty parts, a leading '+'.
    let text = "a.rs \r\n\r\n  h1 +1,,2-3, \r\nempty.rs\nb.rs\n  h2 7\n---\r\n{\"schema_version\": \"v\", \"base_commit_sha\": \"s\"}\n";
    let log = read_authorship_log(text).expect("a log");
    assert_eq!(log.attestations.len(), 2);
    assert_eq!(log.attestations[0].file_path, "a.rs");
    assert_eq!(
        log.attestations[0].entries[0].line_ranges,
        vec![LineRange::Single(1), LineRange::Range(2, 3)]
    );
    assert_eq!(log.attestations[1].file_path, "b.rs");
    assert_eq!(log.metadata.schema_version, "v");
    // A log with nothing before the divider.
    let empty = read_authorship_log("---\n{\"schema_version\": \"v\", \"base_commit_sha\": \"s\"}").expect("a log");
    assert_eq!(empty.attestations.len(), 0);
    assert_eq!(empty.metadata.json, "{\"schema_version\": \"v\", \"base_commit_sha\": \"s\"}");
}

#[test]
fn malformed_logs_are_rejected() {
    let meta = "---\n{\"schema_version\": \"v\", \"base_commit_sha\": \"s\"}";
    assert!(read_authorship_log("a.rs\n  h 1\n").is_none()); // no divider
    assert!(read_authorship_log(&format!("  h 1\n{}", meta)).is_none()); // entry before any file
    assert!(read_authorship_log(&format!("a.rs\n  h1\n{}", meta)).is_none()); // no space after hash
    assert!(read_authorship_log(&format!("a.rs\n  h x\n{}", meta)).is_none()); // not a number
    assert!(read_authorship_log(&format!("a.rs\n  h 4294967296\n{}", meta)).is_none()); // too large
    assert!(read_authorship_log(&format!("a.rs\n  h 4294967295\n{}", meta)).is_some());
    assert!(read_authorship_log(&format!("a.rs\n  h 1-\n{}", meta)).is_none());
    assert!(read_authorship_log("a.rs\n---\nnot json").is_none());
    assert!(read_authorship_log("a.rs\n---\n{\"schema_version\": 3, \"base_commit_sha\": \"s\"}").is_none());
    assert!(read_authorship_log("a.rs\n---\n{\"schema_version\": \"v\"}").is_none());
}

#[test]
fn read_authorship_needs_a_parsable_note() {
    let mut r = repo();
    write_note(&mut r, C1, LOG_V3).unwrap();
    write_note(&mut r, C2, "not a log").unwrap();
    assert!(read_authorship(&r, C1).is_some());
    assert!(read_authorship(&r, C2).is_none());
    assert!(read_authorship(&r, C3).is_none());
}

#[test]
fn read_authorship_v3_errors() {
    let mut r = repo();
    write_note(&mut r, C1, LOG_V3).unwrap();
    write_note(&mut r, C2, "not a log").unwrap();
    write_note(&mut r, C3, "---\n{\"schema_version\": \"authorship/2.0.0\", \"base_commit_sha\": \"b\"}").unwrap();
    let log = read_authorship_v3(&r, C1).expect("a v3 log");
    assert_eq!(log.attestations.len(), 2);
    match read_authorship_v3(&r, C2) {
        Err(GitAiError::InvalidAuthorshipLog { commit_sha }) => assert_eq!(commit_sha, C2),
        other => panic!("unexpected {:?}", other),
    }
    match read_authorship_v3(&r, C3) {
        Err(GitAiError::UnsupportedVersion { found }) => assert_eq!(found, "authorship/2.0.0"),
        other => panic!("unexpected {:?}", other),
    }
    match read_authorship_v3(&r, UNKNOWN) {
        Err(GitAiError::NoteNotFound { commit_sha }) => assert_eq!(commit_sha, UNKNOWN),
        other => panic!("unexpected {:?}", other),
    }
}

#[test]
fn filter_commits_with_notes_keeps_every_commit_in_order() {
    let mut r = repo();
    write_note(&mut r, C2, LOG_V3).unwrap();
    write_note(&mut r, C3, "junk").unwrap();
    let got = filter_commits_with_notes(&r, &shas(&[C1, C2, C3, UNKNOWN])).unwrap();
    assert_eq!(got.len(), 4);
    match &got[0] {
        CommitAuthorship::NoLog { sha, git_author } => {
            assert_eq!(sha, C1);
            assert_eq!(git_author, "Ada <ada@example.com>");
        }
        _ => panic!("expected no log"),
    }
    match &got[1] {
        CommitAuthorship::Log { sha, git_author, authorship_log } => {
            assert_eq!(sha, C2);
            assert_eq!(git_author, "Bob <bob@example.com>");
            assert_eq!(authorship_log.metadata.base_commit_sha, "base");
        }
        _ => panic!("expected a log"),
    }
    assert!(matches!(&got[2], CommitAuthorship::NoLog { .. }));
    match &got[3] {
        CommitAuthorship::NoLog { git_author, .. } => assert_eq!(git_author, "Unknown"),
        _ => panic!("expected no log"),
    }
}

#[test]
fn commit_author_can_be_replaced() {
    let mut r = repo();
    r.add_commit(C1, "Eve <eve@example.com>").unwrap();
    assert!(r.has_commit(C1));
    assert_eq!(r.git_author(C1), "Eve <eve@example.com>");
    assert_eq!(r.git_author(UNKNOWN), "Unknown");
}

#[test]
fn batch_keeps_commits_and_authors() {
    let mut r = repo();
    write_notes_batch(&mut r, &[(C1.to_string(), "a".to_string()), (C3.to_string(), "b".to_string())]).unwrap();
    assert!(r.has_commit(C1) && r.has_commit(C2) && r.has_commit(C3));
    assert!(!r.has_commit(UNKNOWN));
    assert_eq!(r.git_author(C3), "Cy <cy@example.com>");
}

#[test]
fn search_after_write_sees_new_text_only() {
    let mut r = repo();
    write_note(&mut r, C1, "old text").unwrap();
    write_note(&mut r, C1, "new text").unwrap();
    assert_eq!(search_notes(&r, "old").unwrap(), Vec::<String>::new());
    assert_eq!(search_notes(&r, "new").unwrap(), shas(&[C1]));
}

#[test]
fn sha256_repositories_use_sha256_ids() {
    assert_eq!(
        blob_oid(ObjectFormat::Sha256, ""),
        "473a0f4c3be8a93681a267e3b1e9a7dcda1185436fe141f7749120a303721813"
    );
    let mut r = Repository::with_format(ObjectFormat::Sha256);
    assert!(matches!(r.add_commit(C1, "A <a@b>"), Err(GitAiError::InvalidCommitId { .. })));
    let long = "ab".repeat(32);
    r.add_commit(&long, "A <a@b>").unwrap();
    r.load_note(&long, "").unwrap();
    let oids = read_note_blob_oids(&r, &[long.clone()]).unwrap();
    assert_eq!(oids[0].1, "473a0f4c3be8a93681a267e3b1e9a7dcda1185436fe141f7749120a303721813");
    assert_eq!(object_format_named("sha256"), Some(ObjectFormat::Sha256));
    assert_eq!(object_format_named("sha1"), Some(ObjectFormat::Sha1));
    assert_eq!(object_format_named("md5"), None);
}

#[test]
fn loaded_notes_are_kept_as_stored() {
    let mut r = repo();
    r.load_note(C1, "  kept \n\n").unwrap();
    assert_eq!(read_note(&r, C1), Some("kept".to_string()));
    assert_eq!(read_note_blob_oids(&r, &shas(&[C1])).unwrap()[0].1, blob_oid(ObjectFormat::Sha1, "  kept \n\n"));
    assert!(matches!(r.load_note(UNKNOWN, "x"), Err(GitAiError::UnknownCommit { .. })));
}
