//! Canonical anchored names.
//!
//! A validated logical entry name is stored in canonical form: well-formed
//! and without a trailing separator.  Canonicalization is the identity on
//! names that already have no trailing slash, and otherwise removes the one
//! trailing slash a well-formed name can carry.

use vstd::prelude::*;
use crate::chars::{from_chars, to_chars};
use crate::error::RestoreError;
use crate::name_check::{
    begins_with, check_name_chars, ends_with, has_substring, spec_well_formed, spec_windows_safe,
};

verus! {

/// The canonical form of a name: itself, with one trailing slash removed if
/// present.
pub open spec fn canonical_of(s: Seq<char>) -> Seq<char> {
    if s.len() > 0 && s.last() == '/' {
        s.drop_last()
    } else {
        s
    }
}

/// A name in canonical form: well-formed and with no trailing slash.
pub open spec fn is_canonical_name(s: Seq<char>) -> bool {
    spec_well_formed(s) && !ends_with(s, seq!['/'])
}

/// A well-formed name does not start with a slash.
pub(crate) proof fn lemma_wf_first_char(s: Seq<char>)
    requires
        spec_well_formed(s),
    ensures
        s[0] != '/',
{
    if s[0] == '/' {
        assert(s.subrange(0, 1) =~= seq!['/']);
        assert(begins_with(s, seq!['/']));
    }
}

/// Exhibits an occurrence of `p` in `s` at position `i`.
pub(crate) proof fn lemma_substring_at(s: Seq<char>, i: int, p: Seq<char>)
    requires
        0 <= i,
        i + p.len() <= s.len(),
        s.subrange(i, i + p.len() as int) == p,
    ensures
        has_substring(s, p),
{
}

/// An occurrence of `p` inside a prefix of `s` is an occurrence inside `s`.
pub(crate) proof fn lemma_substring_in_prefix(s: Seq<char>, k: int, p: Seq<char>)
    requires
        0 <= k <= s.len(),
        has_substring(s.subrange(0, k), p),
    ensures
        has_substring(s, p),
{
    let d = s.subrange(0, k);
    let i = choose|i: int| 0 <= i && i + p.len() <= d.len() && #[trigger] d.subrange(
        i,
        i + p.len() as int,
    ) == p;
    assert(s.subrange(i, i + p.len() as int) =~= d.subrange(i, i + p.len() as int));
}

/// Dropping the trailing slash of a well-formed name leaves a well-formed
/// name with no trailing slash.
proof fn lemma_wf_strip_slash(s: Seq<char>)
    requires
        spec_well_formed(s),
        s.len() > 0,
        s.last() == '/',
    ensures
        is_canonical_name(s.drop_last()),
{
    let n = s.len() as int;
    lemma_wf_first_char(s);
    assert(n >= 2);
    let d = s.drop_last();
    assert(d =~= s.subrange(0, n - 1));

    // not "." or ".."
    if d == seq!['.'] {
        assert(s.subrange(0, 2) =~= seq!['.', '/']);
        assert(begins_with(s, seq!['.', '/']));
    }
    if d == seq!['.', '.'] {
        assert(s.subrange(0, 3) =~= seq!['.', '.', '/']);
        assert(begins_with(s, seq!['.', '.', '/']));
    }

    // does not begin with "/", "./", "../"
    if begins_with(d, seq!['/']) {
        assert(d.subrange(0, 1)[0] == '/');
    }
    if begins_with(d, seq!['.', '/']) {
        assert(s.subrange(0, 2) =~= d.subrange(0, 2));
        assert(begins_with(s, seq!['.', '/']));
    }
    if begins_with(d, seq!['.', '.', '/']) {
        assert(s.subrange(0, 3) =~= d.subrange(0, 3));
        assert(begins_with(s, seq!['.', '.', '/']));
    }

    // does not end with "/." or "/.."
    if ends_with(d, seq!['/', '.']) {
        assert(d.subrange(d.len() - 2, d.len() as int)[0] == '/');
        assert(d.subrange(d.len() - 2, d.len() as int)[1] == '.');
        assert(s[n - 3] == '/' && s[n - 2] == '.' && s[n - 1] == '/');
        assert(s.subrange(n - 3, n - 3 + 3) =~= seq!['/', '.', '/']);
        lemma_substring_at(s, n - 3, seq!['/', '.', '/']);
    }
    if ends_with(d, seq!['/', '.', '.']) {
        assert(d.subrange(d.len() - 3, d.len() as int)[0] == '/');
        assert(d.subrange(d.len() - 3, d.len() as int)[1] == '.');
        assert(d.subrange(d.len() - 3, d.len() as int)[2] == '.');
        assert(s[n - 4] == '/' && s[n - 3] == '.' && s[n - 2] == '.' && s[n - 1] == '/');
        assert(s.subrange(n - 4, n - 4 + 4) =~= seq!['/', '.', '.', '/']);
        lemma_substring_at(s, n - 4, seq!['/', '.', '.', '/']);
    }

    // contains none of "//", "/./", "/../"
    if has_substring(d, seq!['/', '/']) {
        lemma_substring_in_prefix(s, n - 1, seq!['/', '/']);
    }
    if has_substring(d, seq!['/', '.', '/']) {
        lemma_substring_in_prefix(s, n - 1, seq!['/', '.', '/']);
    }
    if has_substring(d, seq!['/', '.', '.', '/']) {
        lemma_substring_in_prefix(s, n - 1, seq!['/', '.', '.', '/']);
    }

    // no trailing slash left
    if ends_with(d, seq!['/']) {
        assert(d.subrange(d.len() - 1, d.len() as int)[0] == '/');
        assert(s[n - 2] == '/');
        assert(s.subrange(n - 2, n - 2 + 2) =~= seq!['/', '/']);
        lemma_substring_at(s, n - 2, seq!['/', '/']);
    }
}

/// Law: a trailing slash does not change the canonical name.  For every
/// well-formed name that does not itself end in a slash, the same name with
/// a slash appended is also well-formed and canonicalizes to the same
/// canonical form.
pub proof fn lemma_trailing_slash_idempotence(s: Seq<char>)
    requires
        spec_well_formed(s),
        !ends_with(s, seq!['/']),
    ensures
        spec_well_formed(s.push('/')),
        canonical_of(s.push('/')) == canonical_of(s),
{
    let t = s.push('/');
    let n = s.len() as int;
    lemma_wf_first_char(s);
    assert(s.subrange(n - 1, n) =~= seq![s.last()]);
    if s.last() == '/' {
        assert(ends_with(s, seq!['/']));
    }
    assert(t.len() == n + 1 && t.last() == '/');
    assert(t != seq!['.'] && t != seq!['.', '.']);

    // does not begin with "/", "./", "../"
    if begins_with(t, seq!['/']) {
        assert(t.subrange(0, 1)[0] == '/');
        assert(t[0] == s[0]);
    }
    if begins_with(t, seq!['.', '/']) {
        assert(t.subrange(0, 2)[0] == '.' && t.subrange(0, 2)[1] == '/');
        if n == 1 {
            assert(s =~= seq!['.']);
        } else {
            assert(s.subrange(0, 2) =~= seq!['.', '/']);
            assert(begins_with(s, seq!['.', '/']));
        }
    }
    if begins_with(t, seq!['.', '.', '/']) {
        assert(t.subrange(0, 3)[0] == '.' && t.subrange(0, 3)[1] == '.' && t.subrange(0, 3)[2]
            == '/');
        if n == 2 {
            assert(s =~= seq!['.', '.']);
        } else {
            assert(s.subrange(0, 3) =~= seq!['.', '.', '/']);
            assert(begins_with(s, seq!['.', '.', '/']));
        }
    }

    // does not end with "/." or "/.."
    if ends_with(t, seq!['/', '.'])  {
        assert(t.subrange(t.len() - 2, t.len() as int)[1] == '.');
    }
    if ends_with(t, seq!['/', '.', '.']) {
        assert(t.subrange(t.len() - 3, t.len() as int)[2] == '.');
    }

    // contains none of "//", "/./", "/../"
    if has_substring(t, seq!['/', '/']) {
        let i = choose|i: int| 0 <= i && i + 2 <= t.len() && #[trigger] t.subrange(i, i + 2)
            == seq!['/', '/'];
        if i + 2 <= n {
            assert(s.subrange(i, i + 2) =~= t.subrange(i, i + 2));
            lemma_substring_at(s, i, seq!['/', '/']);
        } else {
            assert(t.subrange(i, i + 2)[0] == '/');
            assert(s.last() == '/');
        }
    }
    if has_substring(t, seq!['/', '.', '/']) {
        let i = choose|i: int| 0 <= i && i + 3 <= t.len() && #[trigger] t.subrange(i, i + 3)
            == seq!['/', '.', '/'];
        if i + 3 <= n {
            assert(s.subrange(i, i + 3) =~= t.subrange(i, i + 3));
            lemma_substring_at(s, i, seq!['/', '.', '/']);
        } else {
            assert(t.subrange(i, i + 3)[0] == '/' && t.subrange(i, i + 3)[1] == '.');
            assert(s[n - 2] == '/' && s[n - 1] == '.');
            assert(s.subrange(n - 2, n) =~= seq!['/', '.']);
            assert(ends_with(s, seq!['/', '.']));
        }
    }
    if has_substring(t, seq!['/', '.', '.', '/']) {
        let i = choose|i: int| 0 <= i && i + 4 <= t.len() && #[trigger] t.subrange(i, i + 4)
            == seq!['/', '.', '.', '/'];
        if i + 4 <= n {
            assert(s.subrange(i, i + 4) =~= t.subrange(i, i + 4));
            lemma_substring_at(s, i, seq!['/', '.', '.', '/']);
        } else {
            assert(t.subrange(i, i + 4)[0] == '/' && t.subrange(i, i + 4)[1] == '.' && t.subrange(
                i,
                i + 4,
            )[2] == '.');
            assert(s[n - 3] == '/' && s[n - 2] == '.' && s[n - 1] == '.');
            assert(s.subrange(n - 3, n) =~= seq!['/', '.', '.']);
            assert(ends_with(s, seq!['/', '.', '.']));
        }
    }

    assert(t.drop_last() =~= s);
}

/// A validated logical entry name, held in canonical form.
#[derive(Debug)]
pub struct AnchoredName {
    name: String,
}

impl View for AnchoredName {
    type V = Seq<char>;

    closed spec fn view(&self) -> Seq<char> {
        self.name@
    }
}

impl AnchoredName {
    /// Every value of this type holds a canonical well-formed name.
    #[verifier::type_invariant]
    pub closed spec fn wf(self) -> bool {
        is_canonical_name(self@)
    }

    /// The canonical name as a string slice.
    pub fn as_str(&self) -> (r: &str)
        ensures
            r@ == self@,
    {
        self.name.as_str()
    }

    /// The canonical name as a fresh string.
    pub fn to_string(&self) -> (r: String)
        ensures
            r@ == self@,
    {
        self.name.clone()
    }

    /// A copy of this name.
    pub fn duplicate(&self) -> (r: AnchoredName)
        ensures
            r == *self,
    {
        proof {
            use_type_invariant(self);
        }
        AnchoredName { name: self.name.clone() }
    }

}

/// Validates a logical entry name and, on success, returns it in canonical
/// form.  With `windows` set, names that are not Windows-safe are rejected
/// as well; otherwise only ill-formed names are refused.
pub fn canonicalize_name_for(name: &str, windows: bool) -> (r: Result<AnchoredName, RestoreError>)
    ensures
        (match r {
            Ok(a) => spec_well_formed(name@) && (windows ==> spec_windows_safe(name@)) && a@
                == canonical_of(name@) && is_canonical_name(a@),
            Err(RestoreError::MalformedName(n)) => !spec_well_formed(name@) && n@ == name@,
            Err(RestoreError::WindowsUnsafeName(n)) => windows && spec_well_formed(name@)
                && !spec_windows_safe(name@) && n@ == name@,
            Err(_) => false,
        }),
{
    let mut chars = to_chars(name);
    let verdict = check_name_chars(&chars);
    if !verdict.well_formed {
        return Err(RestoreError::MalformedName(name.to_owned()));
    }
    if windows && !verdict.windows_safe {
        return Err(RestoreError::WindowsUnsafeName(name.to_owned()));
    }
    if chars.len() > 0 && chars[chars.len() - 1] == '/' {
        proof {
            assert(chars@.last() == '/');
            lemma_wf_strip_slash(chars@);
        }
        chars.pop();
    } else {
        proof {
            if chars@.len() > 0 && ends_with(chars@, seq!['/']) {
                assert(chars@.subrange(chars@.len() - 1, chars@.len() as int)[0] == '/');
            }
        }
    }
    let result = AnchoredName { name: from_chars(&chars) };
    Ok(result)
}

/// [`canonicalize_name_for`] with the portable (non-Windows) policy: only
/// ill-formed names are refused.
pub fn canonicalize_name(name: &str) -> (r: Result<AnchoredName, RestoreError>)
    ensures
        (match r {
            Ok(a) => spec_well_formed(name@) && a@ == canonical_of(name@) && is_canonical_name(a@),
            Err(RestoreError::MalformedName(n)) => !spec_well_formed(name@) && n@ == name@,
            Err(_) => false,
        }),
{
    canonicalize_name_for(name, false)
}

} // verus!
