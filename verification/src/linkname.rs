//! Lexical canonicalization of link targets.
//!
//! To decide whether creating a symbolic link is safe, and to key the
//! deferred-link graph, the engine computes the absolute path a link target
//! resolves to *lexically*: starting from the anchor, appending the link's
//! parent directory, joining the raw target, and collapsing `.` and `..`
//! components without consulting the filesystem.  `..` pops the last
//! component and is clamped at the root.  An absolute target replaces the
//! whole base, as a path join does.

use vstd::prelude::*;
use crate::canon::AnchoredName;
use crate::chars::{from_chars, to_chars};
use crate::parts::{
    append_chars, copy_chars, join_components, lemma_split_nonempty, lemma_views_push, spec_join,
    spec_split, split_components, views_of,
};

verus! {

/// A component that names a real directory entry: nonempty, not `.` or
/// `..`, and free of separators.
pub open spec fn clean_comp(c: Seq<char>) -> bool {
    c.len() != 0 && c != seq!['.'] && c != seq!['.', '.'] && !c.contains('/')
}

/// One step of lexical normalization: empty and `.` components are skipped,
/// `..` pops the last component (staying put at the root), and any other
/// component is stacked.
pub open spec fn norm_step(stack: Seq<Seq<char>>, c: Seq<char>) -> Seq<Seq<char>> {
    if c.len() == 0 || c == seq!['.'] {
        stack
    } else if c == seq!['.', '.'] {
        if stack.len() > 0 {
            stack.drop_last()
        } else {
            stack
        }
    } else {
        stack.push(c)
    }
}

/// Lexical normalization of a component sequence over an initial stack.
pub open spec fn norm_fold(stack: Seq<Seq<char>>, comps: Seq<Seq<char>>) -> Seq<Seq<char>>
    decreases comps.len(),
{
    if comps.len() == 0 {
        stack
    } else {
        norm_fold(norm_step(stack, comps[0]), comps.drop_first())
    }
}

/// Is the canonicalized target rooted?  An absolute raw target is; a
/// relative one inherits the anchor's rootedness.
pub open spec fn spec_target_rooted(anchor_rooted: bool, target: Seq<char>) -> bool {
    if target.len() > 0 && target[0] == '/' {
        true
    } else {
        anchor_rooted
    }
}

/// The canonical components of a link target: the normalization of the raw
/// target's components over the anchor plus the link source's parent
/// directory — or over nothing, when the raw target is absolute.
pub open spec fn spec_canonical_comps(
    anchor_comps: Seq<Seq<char>>,
    source: Seq<char>,
    target: Seq<char>,
) -> Seq<Seq<char>> {
    if target.len() > 0 && target[0] == '/' {
        norm_fold(Seq::<Seq<char>>::empty(), spec_split(target))
    } else {
        norm_fold(anchor_comps + spec_split(source).drop_last(), spec_split(target))
    }
}

/// The textual form of a canonical path.
pub open spec fn spec_path_string(rooted: bool, comps: Seq<Seq<char>>) -> Seq<char> {
    if rooted {
        seq!['/'] + spec_join(comps)
    } else {
        spec_join(comps)
    }
}

/// The canonicalized absolute form of a link target, as text.
pub open spec fn spec_canonical_linkname(
    anchor_rooted: bool,
    anchor_comps: Seq<Seq<char>>,
    source: Seq<char>,
    target: Seq<char>,
) -> Seq<char> {
    spec_path_string(
        spec_target_rooted(anchor_rooted, target),
        spec_canonical_comps(anchor_comps, source, target),
    )
}

/// Is the anchor a prefix of the canonical path, with matching rootedness?
pub open spec fn spec_under_anchor(
    anchor_rooted: bool,
    anchor_comps: Seq<Seq<char>>,
    rooted: bool,
    comps: Seq<Seq<char>>,
) -> bool {
    &&& rooted == anchor_rooted
    &&& comps.len() >= anchor_comps.len()
    &&& comps.subrange(0, anchor_comps.len() as int) == anchor_comps
}

/// The extraction root: a normalized path, kept as its components.
#[derive(Debug)]
pub struct Anchor {
    rooted: bool,
    comps: Vec<Vec<char>>,
}

/// Is `path` acceptable as an anchor?  It must be nonempty and normalized:
/// after the optional leading slash, every component must be clean.  The
/// bare root `/` is acceptable.
pub open spec fn spec_anchor_ok(path: Seq<char>) -> bool {
    &&& path.len() > 0
    &&& (spec_anchor_body(path).len() == 0 ==> spec_anchor_rooted(path))
    &&& (spec_anchor_body(path).len() > 0 ==> forall|i: int|
        0 <= i < spec_split(spec_anchor_body(path)).len() ==> clean_comp(
            #[trigger] spec_split(spec_anchor_body(path))[i],
        ))
}

/// Does `path` start with a slash?
pub open spec fn spec_anchor_rooted(path: Seq<char>) -> bool {
    path.len() > 0 && path[0] == '/'
}

/// `path` without its leading slash, if any.
pub open spec fn spec_anchor_body(path: Seq<char>) -> Seq<char> {
    if spec_anchor_rooted(path) {
        path.drop_first()
    } else {
        path
    }
}

/// The component sequence of an acceptable anchor.
pub open spec fn spec_anchor_comps(path: Seq<char>) -> Seq<Seq<char>> {
    if spec_anchor_body(path).len() == 0 {
        Seq::<Seq<char>>::empty()
    } else {
        spec_split(spec_anchor_body(path))
    }
}

impl Anchor {
    /// Every component of an anchor is clean.
    #[verifier::type_invariant]
    pub closed spec fn wf(self) -> bool {
        forall|i: int| 0 <= i < self.comps@.len() ==> clean_comp(
            #[trigger] views_of(self.comps@)[i],
        )
    }

    /// Does the anchor start at the filesystem root?
    pub closed spec fn spec_rooted(&self) -> bool {
        self.rooted
    }

    /// The anchor's components.
    pub closed spec fn spec_comps(&self) -> Seq<Seq<char>> {
        views_of(self.comps@)
    }

    /// Parses an anchor path.  Returns the anchor exactly when the path is
    /// nonempty and normalized.
    pub fn new(path: &str) -> (r: Option<Anchor>)
        ensures
            r is Some <==> spec_anchor_ok(path@),
            (match r {
                Some(a) => a.spec_rooted() == spec_anchor_rooted(path@) && a.spec_comps()
                    == spec_anchor_comps(path@),
                None => true,
            }),
    {
        let chars = to_chars(path);
        if chars.len() == 0 {
            return None;
        }
        let rooted = chars[0] == '/';
        let body = if rooted {
            let mut b: Vec<char> = Vec::new();
            let mut i: usize = 1;
            while i < chars.len()
                invariant
                    1 <= i <= chars@.len(),
                    chars@.len() == chars.len(),
                    b@ == chars@.subrange(1, i as int),
                decreases chars@.len() - i,
            {
                b.push(chars[i]);
                i = i + 1;
                proof {
                    assert(chars@.subrange(1, i as int) =~= chars@.subrange(
                        1,
                        i - 1,
                    ).push(chars@[i - 1]));
                }
            }
            proof {
                assert(chars@.subrange(1, chars@.len() as int) =~= chars@.drop_first());
            }
            b
        } else {
            chars
        };
        if body.len() == 0 {
            if rooted {
                return Some(Anchor { rooted: true, comps: Vec::new() });
            }
            return None;
        }
        let parts = split_components(&body);
        let mut i: usize = 0;
        while i < parts.len()
            invariant
                i <= parts@.len(),
                parts@.len() == parts.len(),
                views_of(parts@) == spec_split(body@),
                body@ == spec_anchor_body(path@),
                body@.len() > 0,
                path@.len() > 0,
                forall|j: int| 0 <= j < i ==> clean_comp(#[trigger] views_of(parts@)[j]),
            decreases parts@.len() - i,
        {
            if !is_clean_comp(&parts[i]) {
                proof {
                    assert(!clean_comp(spec_split(spec_anchor_body(path@))[i as int]));
                }
                return None;
            }
            i = i + 1;
        }
        Some(Anchor { rooted, comps: parts })
    }
}

/// Decides [`clean_comp`] for one component.
fn is_clean_comp(c: &Vec<char>) -> (r: bool)
    ensures
        r == clean_comp(c@),
{
    if c.len() == 0 {
        return false;
    }
    if c.len() == 1 && c[0] == '.' {
        proof {
            assert(c@ =~= seq!['.']);
        }
        return false;
    }
    if c.len() == 2 && c[0] == '.' && c[1] == '.' {
        proof {
            assert(c@ =~= seq!['.', '.']);
        }
        return false;
    }
    let mut i: usize = 0;
    while i < c.len()
        invariant
            i <= c@.len(),
            c@.len() == c.len(),
            forall|j: int| 0 <= j < i ==> c@[j] != '/',
        decreases c@.len() - i,
    {
        if c[i] == '/' {
            return false;
        }
        i = i + 1;
    }
    true
}

/// Are two components equal?
fn comp_eq(a: &Vec<char>, b: &Vec<char>) -> (r: bool)
    ensures
        r == (a@ == b@),
{
    if a.len() != b.len() {
        return false;
    }
    let mut i: usize = 0;
    while i < a.len()
        invariant
            i <= a@.len(),
            a@.len() == a.len(),
            a@.len() == b@.len(),
            forall|j: int| 0 <= j < i ==> a@[j] == b@[j],
        decreases a@.len() - i,
    {
        if a[i] != b[i] {
            return false;
        }
        i = i + 1;
    }
    proof {
        assert(a@ =~= b@);
    }
    true
}

/// Applies one component to the normalization stack.
fn apply_component(stack: &mut Vec<Vec<char>>, c: &Vec<char>)
    ensures
        views_of(final(stack)@) == norm_step(views_of(old(stack)@), c@),
{
    if c.len() == 0 {
        return;
    }
    if c.len() == 1 && c[0] == '.' {
        proof {
            assert(c@ =~= seq!['.']);
        }
        return;
    }
    if c.len() == 2 && c[0] == '.' && c[1] == '.' {
        proof {
            assert(c@ =~= seq!['.', '.']);
        }
        if stack.len() > 0 {
            stack.pop();
            proof {
                assert(views_of(stack@) =~= views_of(stack@.push(old(stack)@.last())).drop_last());
                assert(views_of(stack@.push(old(stack)@.last())) =~= views_of(old(stack)@));
            }
        }
        return;
    }
    let dup = copy_chars(c);
    stack.push(dup);
    proof {
        assert(views_of(stack@) =~= views_of(old(stack)@).push(c@));
    }
}

/// A canonicalized absolute-ish path: a rootedness flag and clean-ish
/// components, produced by lexical normalization.
pub struct CanonicalPath {
    pub rooted: bool,
    pub comps: Vec<Vec<char>>,
}

impl CanonicalPath {
    /// The textual form of this path.
    pub fn to_path_string(&self) -> (r: String)
        ensures
            r@ == spec_path_string(self.rooted, views_of(self.comps@)),
    {
        let joined = join_components(&self.comps);
        let mut out: Vec<char> = Vec::new();
        if self.rooted {
            out.push('/');
        }
        append_chars(&mut out, &joined);
        proof {
            if self.rooted {
                assert(out@ =~= seq!['/'] + spec_join(views_of(self.comps@)));
            } else {
                assert(out@ =~= spec_join(views_of(self.comps@)));
            }
        }
        from_chars(&out)
    }
}

/// Canonicalizes a raw link target against the anchor and the link's
/// validated source name: the raw target's components are normalized over
/// the anchor plus the source's parent directory (or alone, for an absolute
/// target).
pub fn canonical_target(anchor: &Anchor, source: &AnchoredName, target: &str) -> (r: CanonicalPath)
    ensures
        r.rooted == spec_target_rooted(anchor.spec_rooted(), target@),
        views_of(r.comps@) == spec_canonical_comps(anchor.spec_comps(), source@, target@),
{
    let tchars = to_chars(target);
    let absolute = tchars.len() > 0 && tchars[0] == '/';
    let mut stack: Vec<Vec<char>> = Vec::new();
    if !absolute {
        let mut i: usize = 0;
        while i < anchor.comps.len()
            invariant
                i <= anchor.comps@.len(),
                anchor.comps@.len() == anchor.comps.len(),
                views_of(stack@) == views_of(anchor.comps@).subrange(0, i as int),
            decreases anchor.comps@.len() - i,
        {
            let ghost sb = stack@;
            let dup = copy_chars(&anchor.comps[i]);
            stack.push(dup);
            i = i + 1;
            proof {
                lemma_views_push(sb, dup);
                assert(views_of(stack@) =~= views_of(anchor.comps@).subrange(0, i as int));
            }
        }
        proof {
            assert(views_of(anchor.comps@).subrange(0, anchor.comps@.len() as int) =~= views_of(
                anchor.comps@,
            ));
        }
        let schars = to_chars(source.as_str());
        let sparts = split_components(&schars);
        proof {
            lemma_split_nonempty(schars@);
        }
        let parent_len = sparts.len() - 1;
        let mut k: usize = 0;
        while k < parent_len
            invariant
                k <= parent_len,
                parent_len == sparts@.len() - 1,
                sparts@.len() == sparts.len(),
                views_of(sparts@) == spec_split(source@),
                views_of(stack@) == anchor.spec_comps() + views_of(sparts@).subrange(0, k as int),
            decreases parent_len - k,
        {
            let ghost sb = stack@;
            let dup = copy_chars(&sparts[k]);
            stack.push(dup);
            k = k + 1;
            proof {
                lemma_views_push(sb, dup);
                assert(views_of(stack@) =~= anchor.spec_comps() + views_of(sparts@).subrange(
                    0,
                    k as int,
                ));
            }
        }
        proof {
            assert(views_of(sparts@).subrange(0, parent_len as int) =~= spec_split(
                source@,
            ).drop_last());
        }
    }
    let tparts = split_components(&tchars);
    let ghost base = views_of(stack@);
    proof {
        assert(base + Seq::<Seq<char>>::empty() =~= base);
        if !absolute {
            assert(base =~= anchor.spec_comps() + spec_split(source@).drop_last());
        }
        assert(views_of(tparts@).skip(0) =~= views_of(tparts@));
    }
    let mut j: usize = 0;
    while j < tparts.len()
        invariant
            j <= tparts@.len(),
            tparts@.len() == tparts.len(),
            views_of(tparts@) == spec_split(tchars@),
            tchars@ == target@,
            norm_fold(base, views_of(tparts@)) == norm_fold(
                views_of(stack@),
                views_of(tparts@).skip(j as int),
            ),
        decreases tparts@.len() - j,
    {
        let ghost before = views_of(stack@);
        let ghost rest = views_of(tparts@).skip(j as int);
        apply_component(&mut stack, &tparts[j]);
        j = j + 1;
        proof {
            assert(rest[0] == views_of(tparts@)[j - 1]);
            assert(rest.drop_first() =~= views_of(tparts@).skip(j as int));
        }
    }
    proof {
        assert(views_of(tparts@).skip(tparts@.len() as int) =~= Seq::<Seq<char>>::empty());
    }
    CanonicalPath { rooted: absolute || anchor.rooted, comps: stack }
}

/// Does the canonicalized path stay at or below the anchor?
pub fn target_is_under_anchor(anchor: &Anchor, t: &CanonicalPath) -> (r: bool)
    ensures
        r == spec_under_anchor(
            anchor.spec_rooted(),
            anchor.spec_comps(),
            t.rooted,
            views_of(t.comps@),
        ),
{
    if t.rooted != anchor.rooted {
        return false;
    }
    if t.comps.len() < anchor.comps.len() {
        return false;
    }
    let mut i: usize = 0;
    while i < anchor.comps.len()
        invariant
            i <= anchor.comps@.len(),
            anchor.comps@.len() == anchor.comps.len(),
            anchor.comps@.len() <= t.comps@.len(),
            t.comps@.len() == t.comps.len(),
            forall|j: int| 0 <= j < i ==> views_of(t.comps@)[j] == views_of(anchor.comps@)[j],
        decreases anchor.comps@.len() - i,
    {
        if !comp_eq(&t.comps[i], &anchor.comps[i]) {
            proof {
                assert(views_of(t.comps@).subrange(0, anchor.comps@.len() as int)[i as int]
                    != views_of(anchor.comps@)[i as int]);
            }
            return false;
        }
        i = i + 1;
    }
    proof {
        assert(views_of(t.comps@).subrange(0, anchor.comps@.len() as int) =~= views_of(
            anchor.comps@,
        ));
    }
    true
}

/// The canonicalized absolute form of a link target, as text: the path the
/// target resolves to lexically, used both for the safety check and as the
/// identity of graph nodes in the deferred pass.
pub fn canonicalize_linkname(anchor: &Anchor, source: &AnchoredName, target: &str) -> (r: String)
    ensures
        r@ == spec_canonical_linkname(
            anchor.spec_rooted(),
            anchor.spec_comps(),
            source@,
            target@,
        ),
{
    let cp = canonical_target(anchor, source, target);
    cp.to_path_string()
}

} // verus!
