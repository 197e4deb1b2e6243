//! Logical entry-name validation.
//!
//! An archive entry's logical path must be relative, must not traverse
//! upward, and must not rely on redundant separators; a second, independent
//! flag records whether the name is portable to Windows (free of
//! backslashes).  The rules are stated over character sequences and the
//! checker is proved to decide them exactly.

use vstd::prelude::*;
use crate::chars::to_chars;

verus! {

/// Does `s` start with `p`?
pub open spec fn begins_with(s: Seq<char>, p: Seq<char>) -> bool {
    s.len() >= p.len() && s.subrange(0, p.len() as int) == p
}

/// Does `s` end with `p`?
pub open spec fn ends_with(s: Seq<char>, p: Seq<char>) -> bool {
    s.len() >= p.len() && s.subrange(s.len() - p.len(), s.len() as int) == p
}

/// Does `p` occur in `s` as a contiguous substring?
pub open spec fn has_substring(s: Seq<char>, p: Seq<char>) -> bool {
    exists|i: int| 0 <= i && i + p.len() <= s.len() && #[trigger] s.subrange(i, i + p.len() as int)
        == p
}

/// A name is well-formed when it is nonempty, is not `.` or `..`, does not
/// begin with `/`, `./` or `../`, does not end with `/.` or `/..`, and
/// contains none of `//`, `/./`, `/../`.
pub open spec fn spec_well_formed(s: Seq<char>) -> bool {
    &&& s.len() != 0
    &&& s != seq!['.']
    &&& s != seq!['.', '.']
    &&& !begins_with(s, seq!['/'])
    &&& !begins_with(s, seq!['.', '/'])
    &&& !begins_with(s, seq!['.', '.', '/'])
    &&& !ends_with(s, seq!['/', '.'])
    &&& !ends_with(s, seq!['/', '.', '.'])
    &&& !has_substring(s, seq!['/', '/'])
    &&& !has_substring(s, seq!['/', '.', '/'])
    &&& !has_substring(s, seq!['/', '.', '.', '/'])
}

/// A name is Windows-safe when it is nonempty and contains no backslash.
/// (The empty name fails both flags.)
pub open spec fn spec_windows_safe(s: Seq<char>) -> bool {
    s.len() != 0 && !s.contains('\\')
}

/// The two independent verdicts on one logical entry name.
#[derive(Debug, Clone, Copy, PartialEq, Eq, Structural)]
pub struct PathValidation {
    pub well_formed: bool,
    pub windows_safe: bool,
}

/// Compares `v[i .. i + p.len()]` with `p`.
fn matches_at(v: &Vec<char>, i: usize, p: &Vec<char>) -> (r: bool)
    requires
        i + p@.len() <= v@.len(),
    ensures
        r == (v@.subrange(i as int, i + p@.len() as int) == p@),
{
    let mut k: usize = 0;
    while k < p.len()
        invariant
            k <= p@.len(),
            i + p@.len() <= v@.len(),
            v@.len() == v.len(),
            forall|j: int| 0 <= j < k ==> v@[i + j] == p@[j],
        decreases p@.len() - k,
    {
        if v[i + k] != p[k] {
            proof {
                assert(v@.subrange(i as int, i + p@.len() as int)[k as int] != p@[k as int]);
            }
            return false;
        }
        k = k + 1;
    }
    proof {
        assert(v@.subrange(i as int, i + p@.len() as int) =~= p@);
    }
    true
}

/// Does `p` occur in `v` as a contiguous substring?
fn contains_pattern(v: &Vec<char>, p: &Vec<char>) -> (r: bool)
    ensures
        r == has_substring(v@, p@),
{
    if p.len() == 0 {
        proof {
            assert(v@.subrange(0, 0 + p@.len() as int) =~= p@);
        }
        return true;
    }
    if p.len() > v.len() {
        return false;
    }
    let bound = v.len() - p.len();
    let mut i: usize = 0;
    while i <= bound
        invariant
            bound == v@.len() - p@.len(),
            bound < v.len(),
            i <= bound + 1,
            forall|j: int| 0 <= j < i ==> #[trigger] v@.subrange(j, j + p@.len() as int) != p@,
        decreases bound + 1 - i,
    {
        if matches_at(v, i, p) {
            return true;
        }
        i = i + 1;
    }
    false
}

/// Does `v` start with `p`?
fn starts_with_pattern(v: &Vec<char>, p: &Vec<char>) -> (r: bool)
    ensures
        r == begins_with(v@, p@),
{
    if p.len() > v.len() {
        return false;
    }
    matches_at(v, 0, p)
}

/// Does `v` end with `p`?
fn ends_with_pattern(v: &Vec<char>, p: &Vec<char>) -> (r: bool)
    ensures
        r == ends_with(v@, p@),
{
    if p.len() > v.len() {
        return false;
    }
    matches_at(v, v.len() - p.len(), p)
}

/// Does `v` hold the character `c` anywhere?
fn contains_char(v: &Vec<char>, c: char) -> (r: bool)
    ensures
        r == v@.contains(c),
{
    let mut i: usize = 0;
    while i < v.len()
        invariant
            i <= v@.len(),
            forall|j: int| 0 <= j < i ==> v@[j] != c,
        decreases v@.len() - i,
    {
        if v[i] == c {
            return true;
        }
        i = i + 1;
    }
    false
}

/// The character vector `['/']` and friends, built step by step so that
/// their views are known exactly.
fn pattern1(a: char) -> (r: Vec<char>)
    ensures
        r@ == seq![a],
{
    let mut r: Vec<char> = Vec::new();
    r.push(a);
    proof {
        assert(r@ =~= seq![a]);
    }
    r
}

fn pattern2(a: char, b: char) -> (r: Vec<char>)
    ensures
        r@ == seq![a, b],
{
    let mut r: Vec<char> = Vec::new();
    r.push(a);
    r.push(b);
    proof {
        assert(r@ =~= seq![a, b]);
    }
    r
}

fn pattern3(a: char, b: char, c: char) -> (r: Vec<char>)
    ensures
        r@ == seq![a, b, c],
{
    let mut r: Vec<char> = Vec::new();
    r.push(a);
    r.push(b);
    r.push(c);
    proof {
        assert(r@ =~= seq![a, b, c]);
    }
    r
}

fn pattern4(a: char, b: char, c: char, d: char) -> (r: Vec<char>)
    ensures
        r@ == seq![a, b, c, d],
{
    let mut r: Vec<char> = Vec::new();
    r.push(a);
    r.push(b);
    r.push(c);
    r.push(d);
    proof {
        assert(r@ =~= seq![a, b, c, d]);
    }
    r
}

/// Decides both validation flags for a logical entry name.
///
/// The name is well-formed exactly when it passes every rule of
/// [`spec_well_formed`], and Windows-safe exactly when it is nonempty and
/// free of backslashes.  The checker is total: it returns on every input.
pub fn check_name(name: &str) -> (r: PathValidation)
    ensures
        r.well_formed == spec_well_formed(name@),
        r.windows_safe == spec_windows_safe(name@),
{
    let v = to_chars(name);
    check_name_chars(&v)
}

/// [`check_name`] on a name already held as a character vector.
pub fn check_name_chars(v: &Vec<char>) -> (r: PathValidation)
    ensures
        r.well_formed == spec_well_formed(v@),
        r.windows_safe == spec_windows_safe(v@),
{
    if v.len() == 0 {
        return PathValidation { well_formed: false, windows_safe: false };
    }
    let windows_safe = !contains_char(v, '\\');
    let dot = pattern1('.');
    let dotdot = pattern2('.', '.');
    let mut well_formed = true;
    if v.len() == 1 && matches_at(v, 0, &dot) {
        proof {
            assert(v@ =~= seq!['.']);
        }
        well_formed = false;
    }
    if v.len() == 2 && matches_at(v, 0, &dotdot) {
        proof {
            assert(v@ =~= seq!['.', '.']);
        }
        well_formed = false;
    }
    proof {
        if v@ == seq!['.'] {
            assert(v@.subrange(0, 1) =~= seq!['.']);
        }
        if v@ == seq!['.', '.'] {
            assert(v@.subrange(0, 2) =~= seq!['.', '.']);
        }
    }
    if starts_with_pattern(v, &pattern1('/'))
        || starts_with_pattern(v, &pattern2('.', '/'))
        || starts_with_pattern(v, &pattern3('.', '.', '/')) {
        well_formed = false;
    }
    if ends_with_pattern(v, &pattern2('/', '.')) || ends_with_pattern(v, &pattern3('/', '.', '.')) {
        well_formed = false;
    }
    if contains_pattern(v, &pattern2('/', '/'))
        || contains_pattern(v, &pattern3('/', '.', '/'))
        || contains_pattern(v, &pattern4('/', '.', '.', '/')) {
        well_formed = false;
    }
    PathValidation { well_formed, windows_safe }
}

/// Law: for every nonempty name, the Windows-safety flag is false exactly
/// when the name contains a backslash.  (The empty name is the one input on
/// which the equivalence fails: it has no backslash yet is not Windows-safe.)
pub proof fn lemma_windows_safe_iff_backslash(s: Seq<char>)
    requires
        s.len() != 0,
    ensures
        spec_windows_safe(s) <==> !s.contains('\\'),
{
}

} // verus!
