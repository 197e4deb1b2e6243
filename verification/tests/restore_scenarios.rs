//! End-to-end restore scenarios, driven against a simulated filesystem.
//!
//! The harness plays the role of the I/O driver: it asks the engine for a
//! plan per entry, executes it against an in-memory picture of the disk,
//! reports successes, defers symbolic links whose lexical targets do not
//! exist yet, and finishes with the deferred pass.

use std::collections::{HashMap, HashSet};

use cache_archive::linkname::Anchor;
use cache_archive::restore::{Entry, EntryKind, Plan, Restorer};
use cache_archive::RestoreError;

const ANCHOR: &str = "/anchor";

fn dir(name: &str) -> Entry {
    Entry { kind: EntryKind::Directory, name: name.to_string(), link_target: None }
}

fn file(name: &str) -> Entry {
    Entry { kind: EntryKind::Regular, name: name.to_string(), link_target: None }
}

fn symlink(name: &str, target: &str) -> Entry {
    Entry {
        kind: EntryKind::Symlink,
        name: name.to_string(),
        link_target: Some(target.to_string()),
    }
}

fn fifo(name: &str) -> Entry {
    Entry { kind: EntryKind::Other("Fifo".to_string()), name: name.to_string(), link_target: None }
}

/// The simulated disk after a successful restore.
struct Disk {
    dirs: HashSet<String>,
    files: HashSet<String>,
    links: HashMap<String, String>,
}

impl Disk {
    fn occupied(&self, path: &str) -> bool {
        self.dirs.contains(path) || self.files.contains(path) || self.links.contains_key(path)
    }

    fn full(&self, rel: &str) -> String {
        format!("{}/{}", ANCHOR, rel)
    }
}

/// Runs a whole restore over the simulated disk, returning the restored
/// list or the surface error message.
fn run_restore(entries: Vec<Entry>, windows: bool) -> (Result<Vec<String>, String>, Disk) {
    let anchor = Anchor::new(ANCHOR).unwrap();
    let mut restorer = Restorer::new(anchor, windows);
    let mut disk = Disk { dirs: HashSet::new(), files: HashSet::new(), links: HashMap::new() };
    disk.dirs.insert(ANCHOR.to_string());

    for entry in &entries {
        let plan = match restorer.plan_entry(entry) {
            Ok(plan) => plan,
            Err(err) => return (Err(err.message()), disk),
        };
        match plan {
            Plan::CreateDir { path } => {
                let full = disk.full(path.as_str());
                if disk.files.contains(&full) {
                    return (Err(RestoreError::Io("File exists (os error 17)".to_string())
                        .message()), disk);
                }
                // create_dir_all: every ancestor comes into being as well
                let mut at = ANCHOR.to_string();
                for comp in path.as_str().split('/') {
                    at = format!("{}/{}", at, comp);
                    disk.dirs.insert(at.clone());
                }
                restorer.record(path);
            },
            Plan::CreateFile { path } => {
                let full = disk.full(path.as_str());
                if disk.dirs.contains(&full) {
                    return (Err(RestoreError::Io(
                        "Is a directory (os error 21)".to_string(),
                    ).message()), disk);
                }
                disk.files.insert(full);
                restorer.record(path);
            },
            Plan::CreateLink { path, target, canonical_target } => {
                if disk.occupied(&canonical_target) {
                    let full = disk.full(path.as_str());
                    disk.links.insert(full, target);
                    restorer.record(path);
                } else {
                    restorer.defer_link(path, target);
                }
            },
        }
    }

    let out = match restorer.finish() {
        Ok(out) => out,
        Err(err) => return (Err(err.message()), disk),
    };
    for link in &out.links {
        let full = disk.full(link.source.as_str());
        disk.links.insert(full, link.target.clone());
    }
    let paths = out.paths.iter().map(|p| p.as_str().to_string()).collect();
    (Ok(paths), disk)
}

fn expect_ok(entries: Vec<Entry>, expected: &[&str]) -> Disk {
    let (result, disk) = run_restore(entries, false);
    let got = result.expect("restore should succeed");
    let want: Vec<String> = expected.iter().map(|s| s.to_string()).collect();
    assert_eq!(got, want);
    disk
}

fn expect_err(entries: Vec<Entry>, expected: &str) {
    let (result, _) = run_restore(entries, false);
    assert_eq!(result.unwrap_err(), expected);
}

#[test]
fn cache_optimized_layout() {
    expect_ok(
        vec![
            dir("one/"),
            dir("one/two/"),
            dir("one/two/three/"),
            dir("one/two/a/"),
            file("one/two/three/file-one"),
            file("one/two/three/file-two"),
            file("one/two/a/file"),
            dir("one/two/b/"),
            file("one/two/b/file"),
        ],
        &[
            "one",
            "one/two",
            "one/two/three",
            "one/two/a",
            "one/two/three/file-one",
            "one/two/three/file-two",
            "one/two/a/file",
            "one/two/b",
            "one/two/b/file",
        ],
    );
}

#[test]
fn pathological_order_still_works() {
    expect_ok(
        vec![
            dir("one/"),
            dir("one/two/"),
            dir("one/two/a/"),
            dir("one/two/b/"),
            dir("one/two/three/"),
            file("one/two/a/file"),
            file("one/two/b/file"),
            file("one/two/three/file-one"),
            file("one/two/three/file-two"),
        ],
        &[
            "one",
            "one/two",
            "one/two/a",
            "one/two/b",
            "one/two/three",
            "one/two/a/file",
            "one/two/b/file",
            "one/two/three/file-one",
            "one/two/three/file-two",
        ],
    );
}

#[test]
fn symlink_created_after_target() {
    let disk = expect_ok(
        vec![dir("target"), symlink("source", "target")],
        &["target", "source"],
    );
    assert_eq!(disk.links.get("/anchor/source").unwrap(), "target");
}

#[test]
fn symlink_with_forward_reference() {
    let disk = expect_ok(
        vec![symlink("source", "target"), dir("target")],
        &["target", "source"],
    );
    assert_eq!(disk.links.get("/anchor/source").unwrap(), "target");
}

#[test]
fn nested_file() {
    expect_ok(
        vec![dir("folder/"), file("folder/file")],
        &["folder", "folder/file"],
    );
}

#[test]
fn nested_symlink() {
    let disk = expect_ok(
        vec![
            dir("folder/"),
            symlink("folder/symlink", "../"),
            file("folder/symlink/folder-sibling"),
        ],
        &["folder", "folder/symlink", "folder/symlink/folder-sibling"],
    );
    assert_eq!(disk.links.get("/anchor/folder/symlink").unwrap(), "../");
}

#[test]
fn chained_symlinks() {
    let disk = expect_ok(
        vec![
            symlink("one", "two"),
            symlink("two", "three"),
            symlink("three", "real"),
            file("real"),
        ],
        &["real", "one", "two", "three"],
    );
    assert_eq!(disk.links.get("/anchor/one").unwrap(), "two");
    assert_eq!(disk.links.get("/anchor/two").unwrap(), "three");
    assert_eq!(disk.links.get("/anchor/three").unwrap(), "real");
}

#[test]
fn symlink_cycle_is_refused() {
    expect_err(
        vec![symlink("one", "two"), symlink("two", "three"), symlink("three", "one")],
        "links in the cache are cyclic",
    );
}

#[test]
fn symlink_clobber_keeps_last_target() {
    let disk = expect_ok(
        vec![
            symlink("one", "two"),
            symlink("one", "three"),
            symlink("one", "real"),
            file("real"),
        ],
        &["real", "one"],
    );
    assert_eq!(disk.links.get("/anchor/one").unwrap(), "real");
}

#[test]
fn name_traversal_is_refused() {
    expect_err(
        vec![file("../escape")],
        "file name is malformed: ../escape",
    );
}

#[test]
fn symlink_traversal_is_refused() {
    expect_err(
        vec![symlink("escape", "../"), file("escape/file")],
        "tar attempts to write outside of directory: ../",
    );
}

#[test]
fn double_indirection_file_is_refused() {
    expect_err(
        vec![
            symlink("up", "../"),
            symlink("link", "up"),
            file("link/outside-file"),
        ],
        "tar attempts to write outside of directory: ../",
    );
}

#[test]
fn double_indirection_folder_is_refused() {
    expect_err(
        vec![
            symlink("up", "../"),
            symlink("link", "up"),
            dir("link/level-one/level-two"),
        ],
        "tar attempts to write outside of directory: ../",
    );
}

#[test]
fn file_at_directory_location_fails() {
    expect_err(
        vec![
            dir("folder-not-file/"),
            file("folder-not-file/subfile"),
            file("folder-not-file"),
        ],
        "IO error: Is a directory (os error 21)",
    );
}

#[test]
fn unsupported_kind_fails_fast() {
    expect_err(vec![fifo("fifo")], "attempted to restore unsupported file type: Fifo");
}

#[test]
fn unsupported_kind_stops_later_entries() {
    // nothing past the refused entry is materialized
    let (result, disk) = run_restore(vec![fifo("fifo"), dir("late/")], false);
    assert_eq!(
        result.unwrap_err(),
        "attempted to restore unsupported file type: Fifo"
    );
    assert!(!disk.dirs.contains("/anchor/late"));
}

#[test]
fn windows_unsafe_name_restores_verbatim_without_policy() {
    expect_ok(vec![file("back\\slash\\file")], &["back\\slash\\file"]);
}

#[test]
fn windows_unsafe_name_refused_under_policy() {
    let (result, _) = run_restore(vec![file("back\\slash\\file")], true);
    assert_eq!(result.unwrap_err(), "file name is not Windows-safe");
}

#[test]
fn duplicate_restores() {
    expect_ok(
        vec![
            file("target"),
            symlink("source", "target"),
            dir("one/"),
            dir("one/two/"),
        ],
        &["target", "source", "one", "one/two"],
    );
}
