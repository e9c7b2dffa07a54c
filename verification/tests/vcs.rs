use oracle::vcs::{parse_commit, parse_status};

#[test]
fn a_clean_branch_with_an_upstream_is_read_correctly() {
    let raw = "\
# branch.oid 1a2b3c4d
# branch.head main
# branch.upstream origin/main
# branch.ab +0 -0
";
    let status = parse_status(raw);

    assert_eq!(status.branch.as_deref(), Some("main"));
    assert_eq!(status.upstream.as_deref(), Some("origin/main"));
    assert_eq!(status.ahead, 0);
    assert_eq!(status.behind, 0);
    assert!(status.is_clean());
}

#[test]
fn ahead_and_behind_counts_are_read() {
    let raw = "\
# branch.head feature
# branch.upstream origin/feature
# branch.ab +3 -2
";
    let status = parse_status(raw);

    assert_eq!(status.ahead, 3);
    assert_eq!(status.behind, 2);
}

#[test]
fn changed_and_untracked_files_are_counted() {
    let raw = "\
# branch.head main
# branch.ab +0 -0
1 .M N... 100644 100644 100644 abc def src/main.rs
1 M. N... 100644 100644 100644 abc def README.md
? notes.txt
";
    let status = parse_status(raw);

    assert_eq!(status.dirty_files, 3);
    assert!(!status.is_clean());
}

#[test]
fn a_detached_head_reports_no_branch() {
    let raw = "\
# branch.oid 1a2b3c4d
# branch.head (detached)
";
    let status = parse_status(raw);

    assert!(status.branch.is_none());
}

#[test]
fn a_repository_with_no_upstream_is_handled() {
    let raw = "\
# branch.head local-only
";
    let status = parse_status(raw);

    assert_eq!(status.branch.as_deref(), Some("local-only"));
    assert!(status.upstream.is_none());
    assert_eq!(status.ahead, 0);
}

#[test]
fn a_commit_line_is_split_on_the_unit_separator() {
    let commit = parse_commit("9f2c1ab\x1fAdd the tray panel\x1fAlicien\x1f1757750000").unwrap();

    assert_eq!(commit.hash, "9f2c1ab");
    assert_eq!(commit.subject, "Add the tray panel");
    assert_eq!(commit.author, "Alicien");
    assert_eq!(commit.at, 1757750000);
}

#[test]
fn a_subject_containing_separators_does_not_break_parsing() {
    // Pipes, colons and dashes are common in commit subjects and must survive.
    let commit =
        parse_commit("abc1234\x1ffix: handle a|b - properly\x1fAlicien\x1f1757750000").unwrap();

    assert_eq!(commit.subject, "fix: handle a|b - properly");
}

#[test]
fn an_empty_log_yields_no_commit() {
    assert!(parse_commit("").is_none());
    assert!(parse_commit("   \n").is_none());
}

#[test]
fn a_truncated_commit_line_is_rejected_rather_than_guessed() {
    assert!(parse_commit("abc1234\x1fonly a subject").is_none());
}
