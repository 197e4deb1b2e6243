//! Slash-separated path components.
//!
//! Logical names and link targets are broken at `/` into components, and
//! canonical paths are re-assembled from components.  Splitting and joining
//! are specified over character sequences; the executable routines are
//! proved to realize those specifications exactly.

use vstd::prelude::*;

verus! {

/// The views of a sequence of character vectors.
pub open spec fn views_of(v: Seq<Vec<char>>) -> Seq<Seq<char>> {
    v.map_values(|c: Vec<char>| c@)
}

pub proof fn lemma_views_push(v: Seq<Vec<char>>, c: Vec<char>)
    ensures
        views_of(v.push(c)) == views_of(v).push(c@),
{
    assert(views_of(v.push(c)) =~= views_of(v).push(c@));
}

/// The components of `s`, split at every `/`.  Splitting the empty sequence
/// gives one empty component; every slash opens a new component.
pub open spec fn spec_split(s: Seq<char>) -> Seq<Seq<char>>
    decreases s.len(),
{
    if s.len() == 0 {
        seq![Seq::<char>::empty()]
    } else if s.last() == '/' {
        spec_split(s.drop_last()).push(Seq::<char>::empty())
    } else {
        let r = spec_split(s.drop_last());
        r.update(r.len() - 1, r.last().push(s.last()))
    }
}

/// Splitting always yields at least one component.
pub proof fn lemma_split_nonempty(s: Seq<char>)
    ensures
        spec_split(s).len() >= 1,
    decreases s.len(),
{
    if s.len() != 0 {
        lemma_split_nonempty(s.drop_last());
    }
}

/// Splits a character vector at every slash.
pub fn split_components(v: &Vec<char>) -> (r: Vec<Vec<char>>)
    ensures
        views_of(r@) == spec_split(v@),
{
    let mut parts: Vec<Vec<char>> = Vec::new();
    let mut cur: Vec<char> = Vec::new();
    let mut i: usize = 0;
    proof {
        assert(v@.subrange(0, 0) =~= Seq::<char>::empty());
        assert(views_of(parts@).push(cur@) =~= spec_split(v@.subrange(0, 0)));
    }
    while i < v.len()
        invariant
            i <= v@.len(),
            v@.len() == v.len(),
            views_of(parts@).push(cur@) == spec_split(v@.subrange(0, i as int)),
        decreases v@.len() - i,
    {
        let ghost prev = v@.subrange(0, i as int);
        let ghost next = v@.subrange(0, i + 1);
        proof {
            assert(next.drop_last() =~= prev);
            assert(next.last() == v@[i as int]);
            lemma_split_nonempty(prev);
        }
        if v[i] == '/' {
            proof {
                lemma_views_push(parts@, cur);
            }
            let ghost old_parts = parts@;
            parts.push(cur);
            cur = Vec::new();
            proof {
                lemma_views_push(old_parts.push(
                    parts@[old_parts.len() as int],
                ), cur);
                assert(views_of(parts@).push(cur@) =~= spec_split(prev).push(
                    Seq::<char>::empty(),
                ));
            }
        } else {
            let ghost old_cur = cur@;
            cur.push(v[i]);
            proof {
                let sp = spec_split(prev);
                assert(sp == views_of(parts@).push(old_cur));
                assert(sp.last() == old_cur);
                assert(sp.update(sp.len() - 1, sp.last().push(v@[i as int])) =~= views_of(
                    parts@,
                ).push(cur@));
            }
        }
        i = i + 1;
    }
    proof {
        assert(v@.subrange(0, v@.len() as int) =~= v@);
    }
    parts.push(cur);
    proof {
        lemma_views_push(parts@.drop_last(), parts[parts.len() - 1]);
        assert(parts@.drop_last().push(parts@.last()) =~= parts@);
    }
    parts
}

/// The components joined with `/` between them.
pub open spec fn spec_join(parts: Seq<Seq<char>>) -> Seq<char>
    decreases parts.len(),
{
    if parts.len() == 0 {
        Seq::<char>::empty()
    } else if parts.len() == 1 {
        parts[0]
    } else {
        spec_join(parts.drop_last()) + seq!['/'] + parts.last()
    }
}

/// Appends the characters of `src` to `dst`.
pub fn append_chars(dst: &mut Vec<char>, src: &Vec<char>)
    ensures
        final(dst)@ == old(dst)@ + src@,
{
    let mut i: usize = 0;
    while i < src.len()
        invariant
            i <= src@.len(),
            src@.len() == src.len(),
            dst@ == old(dst)@ + src@.subrange(0, i as int),
        decreases src@.len() - i,
    {
        dst.push(src[i]);
        i = i + 1;
        proof {
            assert(old(dst)@ + src@.subrange(0, i as int) =~= (old(dst)@ + src@.subrange(
                0,
                i - 1,
            )).push(src@[i - 1]));
        }
    }
    proof {
        assert(src@.subrange(0, src@.len() as int) =~= src@);
    }
}

/// A copy of a character vector.
pub fn copy_chars(v: &Vec<char>) -> (r: Vec<char>)
    ensures
        r@ == v@,
{
    let mut r: Vec<char> = Vec::new();
    append_chars(&mut r, v);
    proof {
        assert(Seq::<char>::empty() + v@ =~= v@);
    }
    r
}

/// Joins components with `/` between them.
pub fn join_components(parts: &Vec<Vec<char>>) -> (r: Vec<char>)
    ensures
        r@ == spec_join(views_of(parts@)),
{
    let mut r: Vec<char> = Vec::new();
    let mut i: usize = 0;
    while i < parts.len()
        invariant
            i <= parts@.len(),
            parts@.len() == parts.len(),
            r@ == spec_join(views_of(parts@).subrange(0, i as int)),
        decreases parts@.len() - i,
    {
        let ghost prev = views_of(parts@).subrange(0, i as int);
        let ghost next = views_of(parts@).subrange(0, i + 1);
        proof {
            assert(next.drop_last() =~= prev);
            assert(next.last() == views_of(parts@)[i as int]);
        }
        if i > 0 {
            r.push('/');
        }
        append_chars(&mut r, &parts[i]);
        proof {
            if i == 0 {
                assert(spec_join(prev) =~= Seq::<char>::empty());
                assert(r@ =~= spec_join(next));
            } else {
                assert(r@ =~= spec_join(prev) + seq!['/'] + next.last());
            }
        }
        i = i + 1;
    }
    proof {
        assert(views_of(parts@).subrange(0, parts@.len() as int) =~= views_of(parts@));
    }
    r
}

} // verus!
