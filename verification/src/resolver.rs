//! The deferred-symlink resolver.
//!
//! Symbolic links whose targets did not exist during the first pass are
//! resolved together: each link contributes a graph node for its
//! canonicalized source and its canonicalized target, and a directed edge
//! from source to target.  A topological sort of that graph yields the
//! order in which the links can be materialized; a cycle aborts the
//! restore.  When several links share a source, the last one in archive
//! order survives (the clobber rule).

use vstd::prelude::*;
use crate::canon::AnchoredName;
use crate::error::RestoreError;
use crate::linkname::{canonicalize_linkname, spec_canonical_linkname, Anchor};
use crate::toposort::{is_topo_order, toposort};

verus! {

/// A symbolic link set aside during the first pass: its canonical source
/// name and its raw target, byte for byte as the archive gave it.
#[derive(Debug)]
pub struct DeferredLink {
    pub source: AnchoredName,
    pub target: String,
}

impl DeferredLink {
    /// A copy of this record.
    pub fn duplicate(&self) -> (r: DeferredLink)
        ensures
            r == *self,
    {
        DeferredLink { source: self.source.duplicate(), target: self.target.clone() }
    }
}

/// The graph identity of a link's source: its own name canonicalized
/// against the anchor.
pub open spec fn spec_skey(ar: bool, ac: Seq<Seq<char>>, d: DeferredLink) -> Seq<char> {
    spec_canonical_linkname(ar, ac, d.source@, d.source@)
}

/// The graph identity of a link's target: the raw target canonicalized
/// against the anchor and the source's parent directory.
pub open spec fn spec_tkey(ar: bool, ac: Seq<Seq<char>>, d: DeferredLink) -> Seq<char> {
    spec_canonical_linkname(ar, ac, d.source@, d.target@)
}

/// No later deferred entry shares entry `i`'s source key.
pub open spec fn is_last_for_source(
    ar: bool,
    ac: Seq<Seq<char>>,
    deferred: Seq<DeferredLink>,
    i: int,
) -> bool {
    forall|i2: int|
        i < i2 < deferred.len() ==> spec_skey(ar, ac, #[trigger] deferred[i2]) != spec_skey(
            ar,
            ac,
            deferred[i],
        )
}

/// The node keys of the deferred graph, in order of first appearance.
pub open spec fn spec_add_key(keys: Seq<Seq<char>>, k: Seq<char>) -> Seq<Seq<char>> {
    if keys.contains(k) {
        keys
    } else {
        keys.push(k)
    }
}

pub open spec fn spec_node_keys(
    ar: bool,
    ac: Seq<Seq<char>>,
    deferred: Seq<DeferredLink>,
) -> Seq<Seq<char>>
    decreases deferred.len(),
{
    if deferred.len() == 0 {
        Seq::<Seq<char>>::empty()
    } else {
        spec_add_key(
            spec_add_key(
                spec_node_keys(ar, ac, deferred.drop_last()),
                spec_skey(ar, ac, deferred.last()),
            ),
            spec_tkey(ar, ac, deferred.last()),
        )
    }
}

/// The position of key `k` among distinct `keys`.
pub open spec fn key_index(keys: Seq<Seq<char>>, k: Seq<char>) -> int {
    choose|i: int| 0 <= i < keys.len() && keys[i] == k
}

/// The edges of the deferred graph, one per deferred entry, from the
/// source's node to the target's node.
pub open spec fn spec_graph_edges(
    ar: bool,
    ac: Seq<Seq<char>>,
    deferred: Seq<DeferredLink>,
) -> Seq<(usize, usize)> {
    Seq::new(
        deferred.len(),
        |j: int|
            (
                key_index(spec_node_keys(ar, ac, deferred), spec_skey(ar, ac, deferred[j])) as usize,
                key_index(spec_node_keys(ar, ac, deferred), spec_tkey(ar, ac, deferred[j])) as usize,
            ),
    )
}

/// The deferred graph admits a topological order.
pub open spec fn spec_deferred_acyclic(
    ar: bool,
    ac: Seq<Seq<char>>,
    deferred: Seq<DeferredLink>,
) -> bool {
    exists|order: Seq<usize>|
        is_topo_order(
            spec_node_keys(ar, ac, deferred).len(),
            spec_graph_edges(ar, ac, deferred),
            order,
        )
}

/// What the resolver promises of its output: `links` are exactly the
/// surviving deferred entries (the last for each source key), each source
/// key appearing once, in an order that materializes a link's target before
/// the link whenever both are deferred.
pub open spec fn spec_resolved(
    ar: bool,
    ac: Seq<Seq<char>>,
    deferred: Seq<DeferredLink>,
    links: Seq<DeferredLink>,
) -> bool {
    &&& (forall|p: int|
        0 <= p < links.len() ==> exists|i: int|
            0 <= i < deferred.len() && #[trigger] links[p] == deferred[i] && is_last_for_source(
                ar,
                ac,
                deferred,
                i,
            ))
    &&& (forall|i: int|
        0 <= i < deferred.len() ==> exists|p: int|
            0 <= p < links.len() && spec_skey(ar, ac, links[p]) == spec_skey(
                ar,
                ac,
                #[trigger] deferred[i],
            ))
    &&& (forall|p: int, q: int|
        0 <= p < links.len() && 0 <= q < links.len() && p != q ==> spec_skey(
            ar,
            ac,
            #[trigger] links[p],
        ) != spec_skey(ar, ac, #[trigger] links[q]))
    &&& (forall|i: int, p: int, q: int|
        #![trigger deferred[i], links[p], links[q]]
        0 <= i < deferred.len() && 0 <= p < links.len() && 0 <= q < links.len() && spec_skey(
            ar,
            ac,
            deferred[i],
        ) == spec_skey(ar, ac, links[p]) && spec_tkey(ar, ac, deferred[i]) == spec_skey(
            ar,
            ac,
            links[q],
        ) ==> p < q)
}

/// The views of a vector of key strings.
pub open spec fn key_views(keys: Seq<String>) -> Seq<Seq<char>> {
    keys.map_values(|s: String| s@)
}

/// Distinct keys have one index per key.
proof fn lemma_key_index_of(keys: Seq<Seq<char>>, p: int)
    requires
        forall|a: int, b: int|
            0 <= a < keys.len() && 0 <= b < keys.len() && a != b ==> keys[a] != keys[b],
        0 <= p < keys.len(),
    ensures
        key_index(keys, keys[p]) == p,
{
    assert(0 <= p < keys.len() && keys[p] == keys[p]);
    let q = key_index(keys, keys[p]);
    assert(0 <= q < keys.len() && keys[q] == keys[p]);
    if p != q {
        assert(false);
    }
}

/// Finds `k` among the keys, or appends it as a fresh node.
fn find_or_insert(
    keys: &mut Vec<String>,
    has_header: &mut Vec<bool>,
    header_idx: &mut Vec<usize>,
    k: String,
) -> (r: usize)
    requires
        old(has_header)@.len() == old(keys)@.len(),
        old(header_idx)@.len() == old(keys)@.len(),
    ensures
        final(has_header)@.len() == final(keys)@.len(),
        final(header_idx)@.len() == final(keys)@.len(),
        key_views(final(keys)@) == spec_add_key(key_views(old(keys)@), k@),
        r < final(keys)@.len(),
        key_views(final(keys)@)[r as int] == k@,
        old(keys)@.len() <= final(keys)@.len(),
        forall|x: int| 0 <= x < old(keys)@.len() ==> final(keys)@[x] == old(keys)@[x]
            && final(has_header)@[x] == old(has_header)@[x] && final(header_idx)@[x] == old(
            header_idx,
        )@[x],
        !key_views(old(keys)@).contains(k@) ==> final(keys)@.len() == old(keys)@.len() + 1
            && !final(has_header)@[r as int] && r == old(keys)@.len(),
        key_views(old(keys)@).contains(k@) ==> final(keys)@ == old(keys)@,
{
    let mut i: usize = 0;
    while i < keys.len()
        invariant
            i <= keys@.len(),
            keys@ == old(keys)@,
            has_header@ == old(has_header)@,
            header_idx@ == old(header_idx)@,
            has_header@.len() == keys@.len(),
            header_idx@.len() == keys@.len(),
            forall|j: int| 0 <= j < i ==> key_views(keys@)[j] != k@,
        decreases keys@.len() - i,
    {
        if keys[i] == k {
            proof {
                assert(key_views(keys@)[i as int] == k@);
                assert(key_views(keys@) =~= spec_add_key(key_views(old(keys)@), k@));
            }
            return i;
        }
        i = i + 1;
    }
    proof {
        assert(forall|j: int| 0 <= j < keys@.len() ==> key_views(keys@)[j] != k@);
        if key_views(keys@).contains(k@) {
            let j = choose|j: int| 0 <= j < key_views(keys@).len() && key_views(keys@)[j] == k@;
            assert(false);
        }
    }
    let r = keys.len();
    keys.push(k);
    has_header.push(false);
    header_idx.push(0);
    proof {
        assert(key_views(keys@) =~= spec_add_key(key_views(old(keys)@), k@));
    }
    r
}

/// Resolves the deferred links: orders them so that a link's target is
/// materialized before the link whenever both were deferred, applying the
/// clobber rule to links that share a source.  Fails with `CycleDetected`
/// exactly when the deferred graph admits no topological order.
#[verifier::rlimit(100)]
pub fn resolve_deferred(anchor: &Anchor, deferred: &Vec<DeferredLink>) -> (r: Result<
    Vec<DeferredLink>,
    RestoreError,
>)
    ensures
        (match r {
            Ok(links) => spec_deferred_acyclic(anchor.spec_rooted(), anchor.spec_comps(), deferred@)
                && spec_resolved(anchor.spec_rooted(), anchor.spec_comps(), deferred@, links@),
            Err(e) => e == RestoreError::CycleDetected && !spec_deferred_acyclic(
                anchor.spec_rooted(),
                anchor.spec_comps(),
                deferred@,
            ),
        }),
{
    let ghost ar = anchor.spec_rooted();
    let ghost ac = anchor.spec_comps();
    let mut keys: Vec<String> = Vec::new();
    let mut has_header: Vec<bool> = Vec::new();
    let mut header_idx: Vec<usize> = Vec::new();
    let mut edges: Vec<(usize, usize)> = Vec::new();
    let mut d: usize = 0;
    proof {
        assert(deferred@.take(0) =~= Seq::<DeferredLink>::empty());
    }
    while d < deferred.len()
        invariant
            d <= deferred@.len(),
            deferred@.len() == deferred.len(),
            has_header@.len() == keys@.len(),
            header_idx@.len() == keys@.len(),
            edges@.len() == d,
            ar == anchor.spec_rooted(),
            ac == anchor.spec_comps(),
            key_views(keys@) == spec_node_keys(ar, ac, deferred@.take(d as int)),
            forall|a: int, b: int|
                0 <= a < keys@.len() && 0 <= b < keys@.len() && a != b ==> key_views(keys@)[a]
                    != key_views(keys@)[b],
            forall|j: int|
                0 <= j < d ==> (#[trigger] edges@[j]).0 < keys@.len() && edges@[j].1 < keys@.len()
                    && key_views(keys@)[edges@[j].0 as int] == spec_skey(ar, ac, deferred@[j])
                    && key_views(keys@)[edges@[j].1 as int] == spec_tkey(ar, ac, deferred@[j]),
            forall|x: int|
                0 <= x < keys@.len() && has_header@[x] ==> (#[trigger] header_idx@[x]) < d
                    && key_views(keys@)[x] == spec_skey(ar, ac, deferred@[header_idx@[x] as int]),
            forall|x: int, i2: int|
                0 <= x < keys@.len() && has_header@[x] && (#[trigger] header_idx@[x]) < i2 < d
                    ==> spec_skey(ar, ac, #[trigger] deferred@[i2]) != key_views(keys@)[x],
            forall|x: int, i2: int|
                0 <= x < keys@.len() && !(#[trigger] has_header@[x]) && 0 <= i2 < d ==> spec_skey(
                    ar,
                    ac,
                    #[trigger] deferred@[i2],
                ) != key_views(keys@)[x],
            forall|j: int| 0 <= j < d ==> has_header@[(#[trigger] edges@[j]).0 as int],
        decreases deferred@.len() - d,
    {
        let entry = &deferred[d];
        let sk = canonicalize_linkname(anchor, &entry.source, entry.source.as_str());
        let tk = canonicalize_linkname(anchor, &entry.source, entry.target.as_str());
        proof {
            assert(sk@ == spec_skey(ar, ac, deferred@[d as int]));
            assert(tk@ == spec_tkey(ar, ac, deferred@[d as int]));
        }
        let ghost keys0 = keys@;
        let si = find_or_insert(&mut keys, &mut has_header, &mut header_idx, sk);
        let ghost keys1 = keys@;
        let ti = find_or_insert(&mut keys, &mut has_header, &mut header_idx, tk);
        edges.push((si, ti));
        has_header[si] = true;
        header_idx[si] = d;
        d = d + 1;
        proof {
            let prefix = deferred@.take(d - 1);
            let now = deferred@.take(d as int);
            assert(now.drop_last() =~= prefix);
            assert(now.last() == deferred@[d - 1]);
            assert(key_views(keys@) =~= spec_node_keys(ar, ac, now));
            assert forall|x: int, i2: int|
                0 <= x < keys@.len() && !(has_header@[x]) && 0 <= i2 < d implies spec_skey(
                ar,
                ac,
                deferred@[i2],
            ) != key_views(keys@)[x] by {
                if spec_skey(ar, ac, deferred@[i2]) == key_views(keys@)[x] {
                    let e = edges@[i2];
                    assert(key_views(keys@)[e.0 as int] == spec_skey(ar, ac, deferred@[i2]));
                    assert(x == e.0 as int);
                    assert(has_header@[e.0 as int]);
                    assert(false);
                }
            };
        }
    }
    proof {
        assert(deferred@.take(deferred@.len() as int) =~= deferred@);
    }
    let ghost nk = keys@.len();
    proof {
        assert forall|j: int| 0 <= j < deferred@.len() implies edges@[j] == spec_graph_edges(
            ar,
            ac,
            deferred@,
        )[j] by {
            lemma_key_index_of(key_views(keys@), edges@[j].0 as int);
            lemma_key_index_of(key_views(keys@), edges@[j].1 as int);
        };
        assert(edges@ =~= spec_graph_edges(ar, ac, deferred@));
        assert(spec_node_keys(ar, ac, deferred@).len() == nk);
    }
    let sorted = toposort(keys.len(), &edges);
    match sorted {
        None => {
            proof {
                if spec_deferred_acyclic(ar, ac, deferred@) {
                    let order = choose|order: Seq<usize>|
                        is_topo_order(
                            spec_node_keys(ar, ac, deferred@).len(),
                            spec_graph_edges(ar, ac, deferred@),
                            order,
                        );
                    assert(is_topo_order(nk as nat, edges@, order));
                    assert(false);
                }
            }
            Err(RestoreError::CycleDetected)
        },
        Some(order) => {
            let mut out: Vec<DeferredLink> = Vec::new();
            let ghost mut pos: Seq<int> = Seq::empty();
            let mut oi: usize = 0;
            while oi < order.len()
                invariant
                    oi <= order@.len(),
                    order@.len() == nk,
                    nk == keys@.len(),
                    deferred@.len() == deferred.len(),
                    has_header@.len() == nk,
                    header_idx@.len() == nk,
                    is_topo_order(nk as nat, edges@, order@),
                    forall|x: int|
                        0 <= x < keys@.len() && has_header@[x] ==> (#[trigger] header_idx@[x])
                            < deferred@.len(),
                    out@.len() == pos.len(),
                    forall|p: int| 0 <= p < pos.len() ==> 0 <= #[trigger] pos[p] < oi,
                    forall|p: int, q: int|
                        0 <= p < q < pos.len() ==> #[trigger] pos[p] < #[trigger] pos[q],
                    forall|p: int|
                        0 <= p < pos.len() ==> has_header@[order@[#[trigger] pos[p]] as int]
                            && out@[p] == deferred@[header_idx@[order@[pos[p]] as int] as int],
                    forall|j: int|
                        0 <= j < oi && has_header@[order@[j] as int] ==> exists|p: int|
                            0 <= p < pos.len() && #[trigger] pos[p] == j,
                decreases order@.len() - oi,
            {
                let ghost pos_at_entry = pos;
                let x = order[oi];
                proof {
                    assert(order@[oi as int] < nk);
                }
                if has_header[x] {
                    let di = header_idx[x];
                    let dup = deferred[di].duplicate();
                    out.push(dup);
                    proof {
                        pos = pos.push(oi as int);
                        assert(pos[pos.len() - 1] == oi as int);
                    }
                }
                oi = oi + 1;
                proof {
                    assert forall|j: int|
                        0 <= j < oi && has_header@[order@[j] as int] implies exists|p: int|
                        0 <= p < pos.len() && #[trigger] pos[p] == j by {
                        if j < oi - 1 {
                            let p = choose|p: int|
                                0 <= p < pos_at_entry.len() && #[trigger] pos_at_entry[p] == j;
                            assert(pos[p] == j);
                        } else {
                            assert(pos[pos.len() - 1] == j);
                        }
                    };
                }
            }
            proof {
                let links = out@;
                let dl = deferred@.len() as int;
                // acyclicity witness
                assert(is_topo_order(
                    spec_node_keys(ar, ac, deferred@).len(),
                    spec_graph_edges(ar, ac, deferred@),
                    order@,
                ));
                // each output link is the last deferred entry for its source
                assert forall|p: int| 0 <= p < links.len() implies exists|i: int|
                    0 <= i < dl && #[trigger] links[p] == deferred@[i] && is_last_for_source(
                        ar,
                        ac,
                        deferred@,
                        i,
                    ) by {
                    let x = order@[pos[p]] as int;
                    let i = header_idx@[x] as int;
                    assert(key_views(keys@)[x] == spec_skey(ar, ac, deferred@[i]));
                    assert(links[p] == deferred@[i]);
                    assert forall|i2: int|
                        i < i2 < dl implies spec_skey(ar, ac, #[trigger] deferred@[i2])
                        != spec_skey(ar, ac, deferred@[i]) by {};
                    assert(is_last_for_source(ar, ac, deferred@, i));
                };
                // every deferred source key appears among the output links
                assert forall|i: int| 0 <= i < dl implies exists|p: int|
                    0 <= p < links.len() && spec_skey(ar, ac, links[p]) == spec_skey(
                        ar,
                        ac,
                        #[trigger] deferred@[i],
                    ) by {
                    let x = edges@[i].0;
                    assert(has_header@[x as int]);
                    assert(order@.contains(x));
                    let j = choose|j: int| 0 <= j < order@.len() && order@[j] == x;
                    assert(exists|p: int| 0 <= p < pos.len() && #[trigger] pos[p] == j);
                    let p = choose|p: int| 0 <= p < pos.len() && #[trigger] pos[p] == j;
                    let di = header_idx@[x as int] as int;
                    assert(links[p] == deferred@[di]);
                    assert(spec_skey(ar, ac, links[p]) == key_views(keys@)[x as int]);
                    assert(key_views(keys@)[x as int] == spec_skey(ar, ac, deferred@[i]));
                };
                // output source keys are pairwise distinct
                assert forall|p: int, q: int|
                    0 <= p < links.len() && 0 <= q < links.len() && p != q implies spec_skey(
                    ar,
                    ac,
                    #[trigger] links[p],
                ) != spec_skey(ar, ac, #[trigger] links[q]) by {
                    let xp = order@[pos[p]] as int;
                    let xq = order@[pos[q]] as int;
                    if p < q {
                        assert(pos[p] < pos[q]);
                    } else {
                        assert(pos[q] < pos[p]);
                    }
                    assert(order@[pos[p]] != order@[pos[q]]);
                    assert(spec_skey(ar, ac, links[p]) == key_views(keys@)[xp]);
                    assert(spec_skey(ar, ac, links[q]) == key_views(keys@)[xq]);
                };
                // dependency order: sources come before their deferred targets
                assert forall|i: int, p: int, q: int|
                    #![trigger deferred@[i], links[p], links[q]]
                    0 <= i < dl && 0 <= p < links.len() && 0 <= q < links.len() && spec_skey(
                        ar,
                        ac,
                        deferred@[i],
                    ) == spec_skey(ar, ac, links[p]) && spec_tkey(ar, ac, deferred@[i])
                        == spec_skey(ar, ac, links[q]) implies p < q by {
                    let xp = order@[pos[p]] as int;
                    let xq = order@[pos[q]] as int;
                    assert(spec_skey(ar, ac, links[p]) == key_views(keys@)[xp]);
                    assert(spec_skey(ar, ac, links[q]) == key_views(keys@)[xq]);
                    let a = edges@[i].0 as int;
                    let b = edges@[i].1 as int;
                    assert(key_views(keys@)[a] == spec_skey(ar, ac, deferred@[i]));
                    assert(key_views(keys@)[b] == spec_tkey(ar, ac, deferred@[i]));
                    assert(a == xp && b == xq);
                    assert(order@[pos[p]] == edges@[i].0 && order@[pos[q]] == edges@[i].1);
                    assert(pos[p] < pos[q]);
                    if q < p {
                        assert(pos[q] < pos[p]);
                        assert(false);
                    }
                    if q == p {
                        assert(false);
                    }
                };
                assert(spec_deferred_acyclic(ar, ac, deferred@));
                assert(spec_resolved(ar, ac, deferred@, out@));
            }
            Ok(out)
        },
    }
}

} // verus!
