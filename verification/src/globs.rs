//! Glob-based file selection for package hashing.
//!
//! The package hasher walks a directory and hashes the files that pass a
//! pair of glob patterns: the include patterns, combined into one braced
//! alternation, and the exclude patterns, marked with a leading `!`.  The
//! pattern assembly and the selection decision live here; the glob matcher
//! itself is an outside crate.

use vstd::prelude::*;
use crate::chars::{from_chars, to_chars};
use crate::hash::{git_like_hash_bytes, sha1_of, spec_blob_message, spec_hex};
use crate::parts::append_chars;

verus! {

/// Whether `path` matches `glob`, as the outside matcher decides it: a
/// function of the two strings alone.
pub uninterp spec fn glob_match_of(glob: Seq<char>, path: Seq<char>) -> bool;

/// Relies on glob_match's `glob_match`: whether the path matches the glob
/// pattern, a pure function of the two strings.
#[verifier::external_body]
fn glob_matches(glob: &str, path: &str) -> (r: bool)
    ensures
        r == glob_match_of(glob@, path@),
{
    glob_match::glob_match(glob, path)
}

/// Does a raw input pattern name an exclusion?
pub open spec fn spec_is_exclude(s: Seq<char>) -> bool {
    s.len() > 0 && s[0] == '!'
}

/// The inclusion patterns among the inputs, in order.
pub open spec fn spec_includes(inputs: Seq<Seq<char>>) -> Seq<Seq<char>>
    decreases inputs.len(),
{
    if inputs.len() == 0 {
        Seq::<Seq<char>>::empty()
    } else if spec_is_exclude(inputs.last()) {
        spec_includes(inputs.drop_last())
    } else {
        spec_includes(inputs.drop_last()).push(inputs.last())
    }
}

/// The exclusion patterns among the inputs, in order, with the marker
/// stripped.
pub open spec fn spec_excludes(inputs: Seq<Seq<char>>) -> Seq<Seq<char>>
    decreases inputs.len(),
{
    if inputs.len() == 0 {
        Seq::<Seq<char>>::empty()
    } else if spec_is_exclude(inputs.last()) {
        spec_excludes(inputs.drop_last()).push(inputs.last().drop_first())
    } else {
        spec_excludes(inputs.drop_last())
    }
}

/// Patterns joined with commas between them.
pub open spec fn spec_comma_join(parts: Seq<Seq<char>>) -> Seq<char>
    decreases parts.len(),
{
    if parts.len() == 0 {
        Seq::<char>::empty()
    } else if parts.len() == 1 {
        parts[0]
    } else {
        spec_comma_join(parts.drop_last()) + seq![','] + parts.last()
    }
}

/// Patterns combined into one braced alternation.
pub open spec fn spec_brace_group(parts: Seq<Seq<char>>) -> Seq<char> {
    seq!['{'] + spec_comma_join(parts) + seq!['}']
}

/// Combines a list of patterns into one braced alternation, or nothing
/// when the list is empty.
fn brace_group(parts: &Vec<String>) -> (r: Option<String>)
    ensures
        (match r {
            Some(s) => parts@.len() > 0 && s@ == spec_brace_group(
                parts@.map_values(|p: String| p@),
            ),
            None => parts@.len() == 0,
        }),
{
    if parts.len() == 0 {
        return None;
    }
    let views = Ghost(parts@.map_values(|p: String| p@));
    let mut joined: Vec<char> = Vec::new();
    let mut i: usize = 0;
    while i < parts.len()
        invariant
            i <= parts@.len(),
            parts@.len() == parts.len(),
            views@ == parts@.map_values(|p: String| p@),
            joined@ == spec_comma_join(views@.subrange(0, i as int)),
        decreases parts@.len() - i,
    {
        let ghost prev = views@.subrange(0, i as int);
        let ghost next = views@.subrange(0, i + 1);
        proof {
            assert(next.drop_last() =~= prev);
            assert(next.last() == views@[i as int]);
        }
        if i > 0 {
            joined.push(',');
        }
        let pc = to_chars(parts[i].as_str());
        append_chars(&mut joined, &pc);
        proof {
            if i == 0 {
                assert(joined@ =~= spec_comma_join(next));
            } else {
                assert(joined@ =~= spec_comma_join(prev) + seq![','] + next.last());
            }
        }
        i = i + 1;
    }
    proof {
        assert(views@.subrange(0, views@.len() as int) =~= views@);
    }
    let mut out: Vec<char> = Vec::new();
    out.push('{');
    append_chars(&mut out, &joined);
    out.push('}');
    proof {
        assert(out@ =~= spec_brace_group(views@));
    }
    Some(from_chars(&out))
}

/// Splits the raw input patterns into the inclusion alternation and the
/// exclusion alternation: patterns starting with `!` exclude (without the
/// marker), all others include; either side is `None` when it has no
/// patterns.
pub fn build_glob_patterns(inputs: &Vec<String>) -> (r: (Option<String>, Option<String>))
    ensures
        (match r.0 {
            Some(s) => spec_includes(inputs@.map_values(|p: String| p@)).len() > 0 && s@
                == spec_brace_group(spec_includes(inputs@.map_values(|p: String| p@))),
            None => spec_includes(inputs@.map_values(|p: String| p@)).len() == 0,
        }),
        (match r.1 {
            Some(s) => spec_excludes(inputs@.map_values(|p: String| p@)).len() > 0 && s@
                == spec_brace_group(spec_excludes(inputs@.map_values(|p: String| p@))),
            None => spec_excludes(inputs@.map_values(|p: String| p@)).len() == 0,
        }),
{
    let views = Ghost(inputs@.map_values(|p: String| p@));
    let mut includes: Vec<String> = Vec::new();
    let mut excludes: Vec<String> = Vec::new();
    let mut i: usize = 0;
    while i < inputs.len()
        invariant
            i <= inputs@.len(),
            inputs@.len() == inputs.len(),
            views@ == inputs@.map_values(|p: String| p@),
            includes@.map_values(|p: String| p@) == spec_includes(views@.subrange(0, i as int)),
            excludes@.map_values(|p: String| p@) == spec_excludes(views@.subrange(0, i as int)),
        decreases inputs@.len() - i,
    {
        let ghost prev = views@.subrange(0, i as int);
        let ghost next = views@.subrange(0, i + 1);
        proof {
            assert(next.drop_last() =~= prev);
            assert(next.last() == views@[i as int]);
        }
        let pat = &inputs[i];
        let chars = to_chars(pat.as_str());
        if chars.len() > 0 && chars[0] == '!' {
            let mut rest: Vec<char> = Vec::new();
            let mut k: usize = 1;
            while k < chars.len()
                invariant
                    1 <= k <= chars@.len(),
                    chars@.len() == chars.len(),
                    rest@ == chars@.subrange(1, k as int),
                decreases chars@.len() - k,
            {
                rest.push(chars[k]);
                k = k + 1;
                proof {
                    assert(chars@.subrange(1, k as int) =~= chars@.subrange(1, k - 1).push(
                        chars@[k - 1],
                    ));
                }
            }
            proof {
                assert(chars@.subrange(1, chars@.len() as int) =~= chars@.drop_first());
            }
            let ghost e_old = excludes@;
            excludes.push(from_chars(&rest));
            proof {
                assert(excludes@.map_values(|p: String| p@) =~= e_old.map_values(
                    |p: String| p@,
                ).push(pat@.drop_first()));
            }
        } else {
            let ghost i_old = includes@;
            includes.push(pat.clone());
            proof {
                assert(includes@.map_values(|p: String| p@) =~= i_old.map_values(
                    |p: String| p@,
                ).push(pat@));
            }
        }
        i = i + 1;
    }
    proof {
        assert(views@.subrange(0, views@.len() as int) =~= views@);
    }
    let inc = brace_group(&includes);
    let exc = brace_group(&excludes);
    (inc, exc)
}

/// Does the relative path pass the patterns?  A file is selected when it
/// matches the inclusion alternation (or none was built) and does not
/// match the exclusion alternation (when one was built).
pub fn file_included(inc: &Option<String>, exc: &Option<String>, path: &str) -> (r: bool)
    ensures
        r == ((match inc {
            Some(g) => glob_match_of(g@, path@),
            None => true,
        }) && !(match exc {
            Some(g) => glob_match_of(g@, path@),
            None => false,
        })),
{
    let inc_ok = match inc {
        Some(g) => glob_matches(g.as_str(), path),
        None => true,
    };
    if !inc_ok {
        return false;
    }
    match exc {
        Some(g) => !glob_matches(g.as_str(), path),
        None => true,
    }
}

/// The hashing decision for one walked file: the git-style fingerprint of
/// its contents when the patterns select it, and nothing otherwise.
pub fn package_file_hash(
    inc: &Option<String>,
    exc: &Option<String>,
    path: &str,
    len: u64,
    body: &Vec<u8>,
) -> (r: Option<String>)
    ensures
        (match r {
            Some(h) => h@ == spec_hex(sha1_of(spec_blob_message(len, body@))),
            None => true,
        }),
        r is Some <==> ((match inc {
            Some(g) => glob_match_of(g@, path@),
            None => true,
        }) && !(match exc {
            Some(g) => glob_match_of(g@, path@),
            None => false,
        })),
{
    if file_included(inc, exc, path) {
        Some(git_like_hash_bytes(len, body))
    } else {
        None
    }
}

} // verus!
