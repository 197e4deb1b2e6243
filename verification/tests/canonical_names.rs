//! Canonicalization of logical entry names.

use cache_archive::canon::{canonicalize_name, canonicalize_name_for};

#[test]
fn plain_name_is_its_own_canonical_form() {
    let name = canonicalize_name("test.txt").unwrap();
    assert_eq!(name.as_str(), "test.txt");
}

#[test]
fn trailing_slash_is_removed() {
    let name = canonicalize_name("something/").unwrap();
    assert_eq!(name.as_str(), "something");
}

#[test]
fn malformed_name_is_refused() {
    let err = canonicalize_name("//").unwrap_err();
    assert_eq!(err.message(), "file name is malformed: //");
}

#[test]
fn traversal_is_refused_with_the_name() {
    let err = canonicalize_name("../escape").unwrap_err();
    assert_eq!(err.message(), "file name is malformed: ../escape");
}

#[test]
fn trailing_slash_is_idempotent() {
    // the canonical form of "foo/" equals the canonical form of "foo"
    let with = canonicalize_name("foo/").unwrap();
    let without = canonicalize_name("foo").unwrap();
    assert_eq!(with.as_str(), without.as_str());

    let with = canonicalize_name("one/two/").unwrap();
    let without = canonicalize_name("one/two").unwrap();
    assert_eq!(with.as_str(), without.as_str());
}

#[test]
fn windows_policy_refuses_backslashes() {
    let err = canonicalize_name_for("back\\slash\\file", true).unwrap_err();
    assert_eq!(err.message(), "file name is not Windows-safe");
    let ok = canonicalize_name_for("back\\slash\\file", false).unwrap();
    assert_eq!(ok.as_str(), "back\\slash\\file");
}
