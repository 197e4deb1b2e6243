//! Lexical canonicalization of link targets, and anchor parsing.

use cache_archive::canon::canonicalize_name;
use cache_archive::linkname::{canonicalize_linkname, Anchor};

fn canonical(anchor: &str, source: &str, target: &str) -> String {
    let anchor = Anchor::new(anchor).unwrap();
    let source = canonicalize_name(source).unwrap();
    canonicalize_linkname(&anchor, &source, target)
}

#[test]
fn sibling_target_resolves_under_the_anchor() {
    assert_eq!(
        canonical("path/to/anchor", "source", "target"),
        "path/to/anchor/target"
    );
}

#[test]
fn parent_traversal_resolves_lexically() {
    assert_eq!(
        canonical("path/to/anchor", "child/source", "../sibling/target"),
        "path/to/anchor/sibling/target"
    );
}

#[test]
fn backslashes_are_not_separators() {
    assert_eq!(
        canonical("path/to/anchor", "child/source", "..\\sibling\\target"),
        "path/to/anchor/child/..\\sibling\\target"
    );
}

#[test]
fn traversal_above_the_anchor_is_clamped_at_the_root() {
    assert_eq!(canonical("/anchor", "escape", "../"), "/");
    assert_eq!(canonical("/anchor", "escape", "../../../"), "/");
}

#[test]
fn dot_components_are_skipped() {
    assert_eq!(canonical("/anchor", "source", "./target"), "/anchor/target");
    assert_eq!(canonical("/anchor", "a/b", "./../c"), "/anchor/c");
}

#[test]
fn absolute_target_replaces_the_base() {
    assert_eq!(canonical("/anchor", "source", "/etc/hosts"), "/etc/hosts");
}

#[test]
fn anchors_must_be_normalized() {
    assert!(Anchor::new("/tmp/cache").is_some());
    assert!(Anchor::new("/").is_some());
    assert!(Anchor::new("relative/anchor").is_some());
    assert!(Anchor::new("").is_none());
    assert!(Anchor::new("/tmp//cache").is_none());
    assert!(Anchor::new("/tmp/./cache").is_none());
    assert!(Anchor::new("/tmp/../cache").is_none());
    assert!(Anchor::new("/tmp/cache/").is_none());
}
