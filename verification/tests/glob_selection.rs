//! Glob pattern assembly and file selection.

use cache_archive::globs::{build_glob_patterns, file_included, package_file_hash};

fn patterns(inputs: &[&str]) -> (Option<String>, Option<String>) {
    let owned: Vec<String> = inputs.iter().map(|s| s.to_string()).collect();
    build_glob_patterns(&owned)
}

#[test]
fn no_inputs_build_no_patterns() {
    assert_eq!(patterns(&[]), (None, None));
}

#[test]
fn inputs_split_into_inclusions_and_exclusions() {
    let (inc, exc) = patterns(&["**/*file", "!some-dir/excluded-file"]);
    assert_eq!(inc.as_deref(), Some("{**/*file}"));
    assert_eq!(exc.as_deref(), Some("{some-dir/excluded-file}"));
}

#[test]
fn several_patterns_join_with_commas() {
    let (inc, exc) = patterns(&["a/*", "b/*", "!c", "!d"]);
    assert_eq!(inc.as_deref(), Some("{a/*,b/*}"));
    assert_eq!(exc.as_deref(), Some("{c,d}"));
}

#[test]
fn selection_follows_both_patterns() {
    let (inc, exc) = patterns(&["**/*file", "!some-dir/excluded-file"]);
    assert!(file_included(&inc, &exc, "some-dir/other-file"));
    assert!(!file_included(&inc, &exc, "some-dir/excluded-file"));
    assert!(!file_included(&inc, &exc, "some-dir/notes.txt"));
}

#[test]
fn alternation_selects_either_branch() {
    let (inc, exc) = patterns(&["a/*", "b/*"]);
    assert_eq!(exc, None);
    assert!(file_included(&inc, &exc, "a/x"));
    assert!(file_included(&inc, &exc, "b/y"));
    assert!(!file_included(&inc, &exc, "c/z"));
}

#[test]
fn no_patterns_select_everything() {
    assert!(file_included(&None, &None, "anything"));
    assert!(file_included(&None, &None, "child-dir/libA/some-file"));
}

#[test]
fn selected_files_are_hashed() {
    let (inc, exc) = patterns(&["**/*file", "!some-dir/excluded-file"]);
    let body = b"some-file-contents".to_vec();
    let hash = package_file_hash(&inc, &exc, "some-dir/other-file", body.len() as u64, &body);
    assert_eq!(hash.as_deref(), Some("7e59c6a6ea9098c6d3beb00e753e2c54ea502311"));
    let skipped = package_file_hash(&inc, &exc, "some-dir/excluded-file", body.len() as u64, &body);
    assert_eq!(skipped, None);
}
