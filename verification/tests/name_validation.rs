//! The name-validator truth table.

use cache_archive::name_check::{check_name, PathValidation};

fn check(name: &str, well_formed: bool, windows_safe: bool) {
    let expected = PathValidation { well_formed, windows_safe };
    assert_eq!(check_name(name), expected, "verdict for {:?}", name);
}

#[test]
fn empty_name_fails_both_flags() {
    check("", false, false);
}

#[test]
fn dot_names_are_ill_formed() {
    check(".", false, true);
    check("..", false, true);
}

#[test]
fn leading_separators_are_ill_formed() {
    check("/", false, true);
    check("./", false, true);
    check("../", false, true);
    check("/a", false, true);
    check("./a", false, true);
    check("../a", false, true);
}

#[test]
fn dot_suffixes_are_ill_formed() {
    check("/.", false, true);
    check("/..", false, true);
    check("a/.", false, true);
    check("a/..", false, true);
}

#[test]
fn inner_traversals_are_ill_formed() {
    check("//", false, true);
    check("/./", false, true);
    check("/../", false, true);
    check("a//", false, true);
    check("a/./", false, true);
    check("a/../", false, true);
    check("//a", false, true);
    check("/./a", false, true);
    check("/../a", false, true);
    check("a//a", false, true);
    check("a/./a", false, true);
    check("a/../a", false, true);
}

#[test]
fn triple_dots_are_legitimate() {
    check("...", true, true);
    check(".../a", true, true);
    check("a/...", true, true);
    check("a/.../a", true, true);
    check(".../...", true, true);
}

#[test]
fn ordinary_names_are_accepted() {
    check("a", true, true);
    check("one/two/three", true, true);
    check("one/two/", true, true);
}

#[test]
fn backslashes_are_not_windows_safe() {
    check("back\\slash\\file", true, false);
    check("a\\b", true, false);
    check("a/b", true, true);
}
