//! The restore engine's decision core.
//!
//! The engine consumes archive entries one at a time and decides, without
//! touching the filesystem, what should happen for each: create a
//! directory, create a regular file, create a symbolic link — or refuse the
//! entry.  The caller performs the decided action, reports each success,
//! and defers a symbolic link when its target does not exist yet; at the
//! end, the deferred links are resolved in dependency order.
//!
//! The restored list is the engine's output: first-pass entries in archive
//! order, then the deferred links in topological order.

use vstd::prelude::*;
use crate::canon::{canonical_of, canonicalize_name_for, is_canonical_name, AnchoredName};
use crate::error::RestoreError;
use crate::linkname::{
    canonical_target, spec_canonical_comps, spec_canonical_linkname, spec_target_rooted,
    spec_under_anchor, target_is_under_anchor, Anchor,
};
use crate::name_check::{spec_well_formed, spec_windows_safe};
use crate::parts::views_of;
use crate::resolver::{
    resolve_deferred, spec_deferred_acyclic, spec_resolved, DeferredLink,
};

verus! {

/// The kind of an archive entry.  Kinds other than the three supported
/// ones carry their display name, used in the refusal message.
pub enum EntryKind {
    Directory,
    Regular,
    Symlink,
    Other(String),
}

/// The logical content of one archive entry, as the engine sees it: its
/// kind, its raw logical path, and — for symbolic links — the raw link
/// target.
pub struct Entry {
    pub kind: EntryKind,
    pub name: String,
    pub link_target: Option<String>,
}

/// What the caller must do for one accepted entry.
pub enum Plan {
    /// Ensure the directory exists under the anchor.
    CreateDir { path: AnchoredName },
    /// Create or truncate the regular file under the anchor and stream the
    /// entry's body into it.
    CreateFile { path: AnchoredName },
    /// Create a symbolic link at `path` whose on-disk target is the raw
    /// `target`, unless the lexical `canonical_target` does not exist yet —
    /// then defer the link to the second pass.
    CreateLink { path: AnchoredName, target: String, canonical_target: String },
}

/// The engine's result: every restored path in order, and the deferred
/// links the caller still has to materialize, in dependency order.
pub struct RestoreOutput {
    pub paths: Vec<AnchoredName>,
    pub links: Vec<DeferredLink>,
}

/// The sources of a link sequence, in order.
pub open spec fn link_sources(links: Seq<DeferredLink>) -> Seq<AnchoredName> {
    links.map_values(|l: DeferredLink| l.source)
}

/// The decision state of one restore invocation.
pub struct Restorer {
    anchor: Anchor,
    windows: bool,
    restored: Vec<AnchoredName>,
    deferred: Vec<DeferredLink>,
}

impl Restorer {
    /// Does the anchor start at the filesystem root?
    pub closed spec fn spec_rooted(&self) -> bool {
        self.anchor.spec_rooted()
    }

    /// The anchor's components.
    pub closed spec fn spec_comps(&self) -> Seq<Seq<char>> {
        self.anchor.spec_comps()
    }

    /// Is the Windows name policy enforced?
    pub closed spec fn spec_windows(&self) -> bool {
        self.windows
    }

    /// The paths restored so far, in order.
    pub closed spec fn spec_restored(&self) -> Seq<AnchoredName> {
        self.restored@
    }

    /// The links deferred so far, in order.
    pub closed spec fn spec_deferred(&self) -> Seq<DeferredLink> {
        self.deferred@
    }

    /// A fresh restore over the given anchor.  With `windows` set, names
    /// that are not Windows-safe are refused.
    pub fn new(anchor: Anchor, windows: bool) -> (r: Restorer)
        ensures
            r.spec_rooted() == anchor.spec_rooted(),
            r.spec_comps() == anchor.spec_comps(),
            r.spec_windows() == windows,
            r.spec_restored() == Seq::<AnchoredName>::empty(),
            r.spec_deferred() == Seq::<DeferredLink>::empty(),
    {
        Restorer { anchor, windows, restored: Vec::new(), deferred: Vec::new() }
    }

    /// Decides what to do for one archive entry.
    ///
    /// Unsupported kinds are refused outright; then the logical name is
    /// validated and canonicalized; a symbolic link's target is
    /// canonicalized lexically and refused if it escapes the anchor.  The
    /// engine's state does not change.
    pub fn plan_entry(&self, e: &Entry) -> (r: Result<Plan, RestoreError>)
        requires
            e.kind is Symlink ==> e.link_target is Some,
        ensures
            (match r {
                Ok(plan) => match plan {
                    Plan::CreateDir { path } => e.kind is Directory && spec_well_formed(e.name@)
                        && (self.spec_windows() ==> spec_windows_safe(e.name@)) && path@
                        == canonical_of(e.name@),
                    Plan::CreateFile { path } => e.kind is Regular && spec_well_formed(e.name@)
                        && (self.spec_windows() ==> spec_windows_safe(e.name@)) && path@
                        == canonical_of(e.name@),
                    Plan::CreateLink { path, target, canonical_target } => e.kind is Symlink
                        && spec_well_formed(e.name@) && (self.spec_windows()
                        ==> spec_windows_safe(e.name@)) && path@ == canonical_of(e.name@)
                        && target@ == e.link_target.unwrap()@ && canonical_target@
                        == spec_canonical_linkname(
                        self.spec_rooted(),
                        self.spec_comps(),
                        path@,
                        target@,
                    ) && spec_under_anchor(
                        self.spec_rooted(),
                        self.spec_comps(),
                        spec_target_rooted(self.spec_rooted(), target@),
                        spec_canonical_comps(self.spec_comps(), path@, target@),
                    ),
                },
                Err(err) => match err {
                    RestoreError::UnsupportedFileType(kind) => e.kind matches EntryKind::Other(k)
                        && kind@ == k@,
                    RestoreError::MalformedName(n) => !(e.kind is Other) && !spec_well_formed(
                        e.name@,
                    ) && n@ == e.name@,
                    RestoreError::WindowsUnsafeName(n) => !(e.kind is Other) && self.spec_windows()
                        && spec_well_formed(e.name@) && !spec_windows_safe(e.name@) && n@
                        == e.name@,
                    RestoreError::WriteOutsideDirectory(t) => e.kind is Symlink
                        && spec_well_formed(e.name@) && (self.spec_windows()
                        ==> spec_windows_safe(e.name@)) && t@ == e.link_target.unwrap()@
                        && !spec_under_anchor(
                        self.spec_rooted(),
                        self.spec_comps(),
                        spec_target_rooted(self.spec_rooted(), t@),
                        spec_canonical_comps(
                            self.spec_comps(),
                            canonical_of(e.name@),
                            t@,
                        ),
                    ),
                    _ => false,
                },
            }),
    {
        if let EntryKind::Other(k) = &e.kind {
            return Err(RestoreError::UnsupportedFileType(k.clone()));
        }
        let path = match canonicalize_name_for(e.name.as_str(), self.windows) {
            Ok(p) => p,
            Err(err) => {
                return Err(err);
            },
        };
        match &e.kind {
            EntryKind::Directory => Ok(Plan::CreateDir { path }),
            EntryKind::Regular => Ok(Plan::CreateFile { path }),
            EntryKind::Symlink => {
                let target = e.link_target.as_ref().unwrap().clone();
                let cp = canonical_target(&self.anchor, &path, target.as_str());
                if !target_is_under_anchor(&self.anchor, &cp) {
                    return Err(RestoreError::WriteOutsideDirectory(target));
                }
                let canonical = cp.to_path_string();
                Ok(Plan::CreateLink { path, target, canonical_target: canonical })
            },
            EntryKind::Other(_) => {
                proof {
                    assert(false);
                }
                Err(RestoreError::CycleDetected)
            },
        }
    }

    /// Records one successfully materialized path.
    pub fn record(&mut self, path: AnchoredName)
        ensures
            final(self).spec_restored() == old(self).spec_restored().push(path),
            final(self).spec_deferred() == old(self).spec_deferred(),
            final(self).spec_rooted() == old(self).spec_rooted(),
            final(self).spec_comps() == old(self).spec_comps(),
            final(self).spec_windows() == old(self).spec_windows(),
    {
        self.restored.push(path);
    }

    /// Sets a symbolic link aside for the second pass, because its lexical
    /// target does not exist yet.
    pub fn defer_link(&mut self, path: AnchoredName, target: String)
        ensures
            final(self).spec_deferred() == old(self).spec_deferred().push(
                DeferredLink { source: path, target },
            ),
            final(self).spec_restored() == old(self).spec_restored(),
            final(self).spec_rooted() == old(self).spec_rooted(),
            final(self).spec_comps() == old(self).spec_comps(),
            final(self).spec_windows() == old(self).spec_windows(),
    {
        self.deferred.push(DeferredLink { source: path, target });
    }

    /// Ends the first pass: resolves the deferred links in dependency
    /// order, or fails with `CycleDetected` exactly when they are cyclic.
    ///
    /// On success, the output lists every restored path — the first-pass
    /// paths in their original order, followed by the sources of the
    /// surviving deferred links in the order the caller must now create
    /// them.
    pub fn finish(self) -> (r: Result<RestoreOutput, RestoreError>)
        ensures
            (match r {
                Ok(out) => spec_deferred_acyclic(
                    self.spec_rooted(),
                    self.spec_comps(),
                    self.spec_deferred(),
                ) && spec_resolved(
                    self.spec_rooted(),
                    self.spec_comps(),
                    self.spec_deferred(),
                    out.links@,
                ) && out.paths@ == self.spec_restored() + link_sources(out.links@),
                Err(e) => e == RestoreError::CycleDetected && !spec_deferred_acyclic(
                    self.spec_rooted(),
                    self.spec_comps(),
                    self.spec_deferred(),
                ),
            }),
    {
        let links = match resolve_deferred(&self.anchor, &self.deferred) {
            Ok(links) => links,
            Err(err) => {
                return Err(err);
            },
        };
        let mut paths = self.restored;
        let ghost first_pass = paths@;
        let mut i: usize = 0;
        while i < links.len()
            invariant
                i <= links@.len(),
                links@.len() == links.len(),
                paths@ == first_pass + link_sources(links@.take(i as int)),
            decreases links@.len() - i,
        {
            paths.push(links[i].source.duplicate());
            i = i + 1;
            proof {
                assert(links@.take(i as int).drop_last() =~= links@.take(i - 1));
                assert(paths@ =~= first_pass + link_sources(links@.take(i as int)));
            }
        }
        proof {
            assert(links@.take(links@.len() as int) =~= links@);
        }
        Ok(RestoreOutput { paths, links })
    }
}

} // verus!