//! The anchor-containment law.
//!
//! Every filesystem effect of the engine is named by a canonical anchored
//! name.  This module proves that such names cannot escape the anchor
//! lexically: each of their components is clean — nonempty, not `.` or
//! `..` — so normalizing the anchor's components followed by the name's
//! components pops nothing and keeps the anchor as a prefix.  Together
//! with the engine's refusal of symbolic links whose canonicalized targets
//! leave the anchor, every materialized path stays inside it.

use vstd::prelude::*;
use crate::canon::{
    is_canonical_name, lemma_substring_at, lemma_substring_in_prefix, lemma_wf_first_char,
};
use crate::linkname::{clean_comp, norm_fold, norm_step, spec_under_anchor};
use crate::name_check::{begins_with, ends_with, has_substring};
use crate::parts::spec_split;

verus! {

/// Position `j` holds the last slash of `s`.
pub open spec fn is_last_slash(s: Seq<char>, j: int) -> bool {
    &&& 0 <= j < s.len()
    &&& s[j] == '/'
    &&& forall|k: int| j < k < s.len() ==> s[k] != '/'
}

/// A nonempty name ends with a slash exactly when its last character is
/// one.
proof fn lemma_ends_slash_iff(s: Seq<char>)
    requires
        s.len() > 0,
    ensures
        ends_with(s, seq!['/']) <==> s.last() == '/',
{
    assert(s.subrange(s.len() - 1, s.len() as int) =~= seq![s.last()]);
    if ends_with(s, seq!['/']) {
        assert(s.subrange(s.len() - 1, s.len() as int)[0] == '/');
    }
}

/// A name that contains a slash has a last one.
proof fn lemma_last_slash_exists(s: Seq<char>)
    requires
        s.contains('/'),
    ensures
        exists|j: int| is_last_slash(s, j),
    decreases s.len(),
{
    if s.last() == '/' {
        assert(is_last_slash(s, s.len() - 1));
    } else {
        let i = choose|i: int| 0 <= i < s.len() && s[i] == '/';
        assert(s.drop_last()[i] == '/');
        assert(s.drop_last().contains('/'));
        lemma_last_slash_exists(s.drop_last());
        let j = choose|j: int| is_last_slash(s.drop_last(), j);
        assert(s[j] == '/');
        assert forall|k: int| j < k < s.len() implies s[k] != '/' by {
            if k < s.len() - 1 {
                assert(s.drop_last()[k] != '/');
            }
        };
        assert(is_last_slash(s, j));
    }
}

/// A name without slashes splits into itself.
proof fn lemma_split_no_slash(s: Seq<char>)
    requires
        forall|i: int| 0 <= i < s.len() ==> s[i] != '/',
    ensures
        spec_split(s) == seq![s],
    decreases s.len(),
{
    if s.len() == 0 {
        assert(s =~= Seq::<char>::empty());
        assert(spec_split(s) =~= seq![s]);
    } else {
        assert(forall|i: int| 0 <= i < s.drop_last().len() ==> s.drop_last()[i] != '/');
        lemma_split_no_slash(s.drop_last());
        assert(s.drop_last().push(s.last()) =~= s);
        assert(spec_split(s) =~= seq![s]);
    }
}

/// Splitting separates at the last slash: everything before it, then the
/// final component.
proof fn lemma_split_decompose(s: Seq<char>, j: int)
    requires
        is_last_slash(s, j),
    ensures
        spec_split(s) == spec_split(s.subrange(0, j)) + seq![s.subrange(j + 1, s.len() as int)],
    decreases s.len(),
{
    if j == s.len() - 1 {
        assert(s.drop_last() =~= s.subrange(0, j));
        assert(s.subrange(j + 1, s.len() as int) =~= Seq::<char>::empty());
        assert(spec_split(s) =~= spec_split(s.subrange(0, j)) + seq![s.subrange(
            j + 1,
            s.len() as int,
        )]);
    } else {
        assert(s.last() != '/');
        let d = s.drop_last();
        assert(d[j] == '/');
        assert forall|k: int| j < k < d.len() implies d[k] != '/' by {
            assert(d[k] == s[k]);
        };
        assert(is_last_slash(d, j));
        lemma_split_decompose(d, j);
        assert(d.subrange(0, j) =~= s.subrange(0, j));
        let r = spec_split(d);
        assert(r.len() == spec_split(s.subrange(0, j)).len() + 1);
        assert(r.last() == d.subrange(j + 1, d.len() as int));
        assert(d.subrange(j + 1, d.len() as int).push(s.last()) =~= s.subrange(
            j + 1,
            s.len() as int,
        ));
        assert(spec_split(s) =~= spec_split(s.subrange(0, j)) + seq![s.subrange(
            j + 1,
            s.len() as int,
        )]);
    }
}

/// Cutting a canonical name at its last slash leaves a canonical prefix
/// and a clean final component.
proof fn lemma_canonical_cut(s: Seq<char>, j: int)
    requires
        is_canonical_name(s),
        is_last_slash(s, j),
    ensures
        is_canonical_name(s.subrange(0, j)),
        clean_comp(s.subrange(j + 1, s.len() as int)),
{
    let n = s.len() as int;
    lemma_wf_first_char(s);
    assert(j >= 1);
    let t = s.subrange(0, j);
    let c = s.subrange(j + 1, n);

    // the prefix is not "." or ".."
    if t == seq!['.'] {
        assert(t.len() == seq!['.'].len());
        assert(t.len() == 1);
        assert(t.len() == j);
        assert(j == 1);
        assert(s[0] == t[0] && t[0] == '.');
        assert(s.subrange(0, 2) =~= seq!['.', '/']);
        assert(begins_with(s, seq!['.', '/']));
    }
    if t == seq!['.', '.'] {
        assert(t.len() == seq!['.', '.'].len());
        assert(j == 2);
        assert(s[0] == t[0] && s[1] == t[1]);
        assert(t[0] == '.' && t[1] == '.');
        assert(s.subrange(0, 3) =~= seq!['.', '.', '/']);
        assert(begins_with(s, seq!['.', '.', '/']));
    }

    // the prefix begins as the whole name does
    if begins_with(t, seq!['/']) {
        assert(s.subrange(0, 1) =~= t.subrange(0, 1));
        assert(begins_with(s, seq!['/']));
    }
    if begins_with(t, seq!['.', '/']) {
        assert(s.subrange(0, 2) =~= t.subrange(0, 2));
        assert(begins_with(s, seq!['.', '/']));
    }
    if begins_with(t, seq!['.', '.', '/']) {
        assert(s.subrange(0, 3) =~= t.subrange(0, 3));
        assert(begins_with(s, seq!['.', '.', '/']));
    }

    // the prefix does not end with "/." or "/.."
    if ends_with(t, seq!['/', '.']) {
        assert(t.subrange(t.len() - 2, t.len() as int)[0] == '/');
        assert(t.subrange(t.len() - 2, t.len() as int)[1] == '.');
        assert(s[j - 2] == '/' && s[j - 1] == '.' && s[j] == '/');
        assert(s.subrange(j - 2, j - 2 + 3) =~= seq!['/', '.', '/']);
        lemma_substring_at(s, j - 2, seq!['/', '.', '/']);
    }
    if ends_with(t, seq!['/', '.', '.']) {
        assert(t.subrange(t.len() - 3, t.len() as int)[0] == '/');
        assert(t.subrange(t.len() - 3, t.len() as int)[1] == '.');
        assert(t.subrange(t.len() - 3, t.len() as int)[2] == '.');
        assert(s[j - 3] == '/' && s[j - 2] == '.' && s[j - 1] == '.' && s[j] == '/');
        assert(s.subrange(j - 3, j - 3 + 4) =~= seq!['/', '.', '.', '/']);
        lemma_substring_at(s, j - 3, seq!['/', '.', '.', '/']);
    }

    // substrings of the prefix are substrings of the whole name
    if has_substring(t, seq!['/', '/']) {
        lemma_substring_in_prefix(s, j, seq!['/', '/']);
    }
    if has_substring(t, seq!['/', '.', '/']) {
        lemma_substring_in_prefix(s, j, seq!['/', '.', '/']);
    }
    if has_substring(t, seq!['/', '.', '.', '/']) {
        lemma_substring_in_prefix(s, j, seq!['/', '.', '.', '/']);
    }

    // the prefix does not end with a slash
    lemma_ends_slash_iff(t);
    if t.last() == '/' {
        assert(s[j - 1] == '/');
        assert(s.subrange(j - 1, j - 1 + 2) =~= seq!['/', '/']);
        lemma_substring_at(s, j - 1, seq!['/', '/']);
    }

    // the final component is nonempty and clean
    lemma_ends_slash_iff(s);
    assert(s.last() != '/');
    assert(j < n - 1);
    assert(c.len() > 0);
    if c == seq!['.'] {
        assert(c.len() == seq!['.'].len());
        assert(n == j + 2);
        assert(c[0] == s[j + 1] && c[0] == '.');
        assert(s[n - 2] == '/' && s[n - 1] == '.');
        assert(s.subrange(n - 2, n) =~= seq!['/', '.']);
        assert(ends_with(s, seq!['/', '.']));
    }
    if c == seq!['.', '.'] {
        assert(c.len() == seq!['.', '.'].len());
        assert(n == j + 3);
        assert(c[0] == s[j + 1] && c[1] == s[j + 2]);
        assert(c[0] == '.' && c[1] == '.');
        assert(s[n - 3] == '/' && s[n - 2] == '.' && s[n - 1] == '.');
        assert(s.subrange(n - 3, n) =~= seq!['/', '.', '.']);
        assert(ends_with(s, seq!['/', '.', '.']));
    }
    if c.contains('/') {
        let i = choose|i: int| 0 <= i < c.len() && c[i] == '/';
        assert(s[j + 1 + i] == '/');
    }
}

/// Every component of a canonical name is clean: nonempty, not `.` or
/// `..`, free of separators.
pub proof fn lemma_canonical_components_clean(s: Seq<char>)
    requires
        is_canonical_name(s),
    ensures
        forall|i: int| 0 <= i < spec_split(s).len() ==> clean_comp(#[trigger] spec_split(s)[i]),
    decreases s.len(),
{
    if !s.contains('/') {
        assert(forall|i: int| 0 <= i < s.len() ==> s[i] != '/');
        lemma_split_no_slash(s);
        assert(clean_comp(s));
    } else {
        lemma_last_slash_exists(s);
        let j = choose|j: int| is_last_slash(s, j);
        lemma_canonical_cut(s, j);
        lemma_split_decompose(s, j);
        let t = s.subrange(0, j);
        lemma_canonical_components_clean(t);
        assert forall|i: int| 0 <= i < spec_split(s).len() implies clean_comp(
            #[trigger] spec_split(s)[i],
        ) by {
            if i < spec_split(t).len() {
                assert(spec_split(s)[i] == spec_split(t)[i]);
            } else {
                assert(spec_split(s)[i] == s.subrange(j + 1, s.len() as int));
            }
        };
    }
}

/// Normalizing clean components over a stack just appends them.
proof fn lemma_norm_fold_clean(stack: Seq<Seq<char>>, comps: Seq<Seq<char>>)
    requires
        forall|i: int| 0 <= i < comps.len() ==> clean_comp(#[trigger] comps[i]),
    ensures
        norm_fold(stack, comps) == stack + comps,
    decreases comps.len(),
{
    if comps.len() == 0 {
        assert(stack + comps =~= stack);
    } else {
        assert(clean_comp(comps[0]));
        assert(norm_step(stack, comps[0]) == stack.push(comps[0]));
        assert(forall|i: int|
            0 <= i < comps.drop_first().len() ==> clean_comp(#[trigger] comps.drop_first()[i]));
        lemma_norm_fold_clean(stack.push(comps[0]), comps.drop_first());
        assert(stack.push(comps[0]) + comps.drop_first() =~= stack + comps);
    }
}

/// Law: anchor containment.  Materializing a canonical anchored name
/// cannot escape the anchor: lexically normalizing the anchor's components
/// followed by the name's components removes nothing, and the result keeps
/// the anchor as a prefix.  (The engine refuses names that fail
/// canonicalization, and refuses symbolic links whose canonicalized
/// targets leave the anchor, so every materialized path is of this form.)
pub proof fn lemma_restore_stays_under_anchor(
    anchor_rooted: bool,
    anchor_comps: Seq<Seq<char>>,
    s: Seq<char>,
)
    requires
        is_canonical_name(s),
    ensures
        norm_fold(anchor_comps, spec_split(s)) == anchor_comps + spec_split(s),
        spec_under_anchor(
            anchor_rooted,
            anchor_comps,
            anchor_rooted,
            norm_fold(anchor_comps, spec_split(s)),
        ),
{
    lemma_canonical_components_clean(s);
    lemma_norm_fold_clean(anchor_comps, spec_split(s));
    assert((anchor_comps + spec_split(s)).subrange(0, anchor_comps.len() as int) =~= anchor_comps);
}

} // verus!
