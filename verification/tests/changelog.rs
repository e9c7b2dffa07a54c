use oracle::changelog::{for_version, section};
use oracle::VERSION;

#[test]
fn the_running_version_has_an_entry() {
    // A build whose own changelog is missing should fail here, where it is cheap to notice.
    assert!(for_version(VERSION).is_some(), "CHANGELOG.md has no `## {}` section", VERSION);
}

#[test]
fn a_section_stops_at_the_next_version() {
    let text = for_version("0.1.0").expect("0.1.0 should have an entry");
    assert!(text.contains("First build"));
    assert!(!text.contains("## "), "a section must not run into the next");
}

#[test]
fn an_unknown_version_has_nothing_to_show() {
    assert_eq!(for_version("9.9.9"), None);
}

#[test]
fn a_version_is_matched_whole() {
    // `## 0.1.0` must not be found by asking for `0.1`.
    assert_eq!(for_version("0.1"), None);
}

#[test]
fn a_section_is_trimmed_and_joined_by_lines() {
    let log = "# Log\n\n## 2.0\n\n- b\n- c\n\n  ## 1.0\n- a\n";
    assert_eq!(section(log, "2.0").as_deref(), Some("- b\n- c"));
    assert_eq!(section(log, "1.0").as_deref(), Some("- a"));
}

#[test]
fn an_empty_section_has_nothing_to_show() {
    assert_eq!(section("## 3.0\n\n## 2.0\nx\n", "3.0"), None);
}
