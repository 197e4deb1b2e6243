//! Topological ordering with cycle detection.
//!
//! The deferred-link resolver needs one graph operation: order the nodes so
//! that every edge's source comes before its target, or report that no such
//! order exists (the graph is cyclic).  Nodes are the integers below `n`;
//! edges are ordered pairs.  The sort maintains in-degrees and repeatedly
//! emits nodes whose remaining in-degree is zero; when it gets stuck early,
//! no topological order exists at all, and that fact is proved, not assumed.

use vstd::prelude::*;
use vstd::set_lib::{lemma_int_range, lemma_len_subset, set_int_range};

verus! {

/// `order` is a topological order of the graph on the nodes `0 .. n` with
/// the directed edges `edges`: it lists every node exactly once, and for
/// every edge the source comes strictly before the target.
pub open spec fn is_topo_order(n: nat, edges: Seq<(usize, usize)>, order: Seq<usize>) -> bool {
    &&& order.len() == n
    &&& (forall|i: int| 0 <= i < order.len() ==> (#[trigger] order[i]) < n)
    &&& (forall|i: int, j: int|
        0 <= i < order.len() && 0 <= j < order.len() && i != j ==> order[i] != order[j])
    &&& (forall|v: usize| v < n ==> order.contains(v))
    &&& (forall|k: int, i: int, j: int|
        #![trigger edges[k], order[i], order[j]]
        0 <= k < edges.len() && 0 <= i < order.len() && 0 <= j < order.len() && order[i]
            == edges[k].0 && order[j] == edges[k].1 ==> i < j)
}

/// The number of edges into `v` whose source has not been placed yet.
pub open spec fn pending(edges: Seq<(usize, usize)>, placed: Seq<bool>, v: int) -> nat
    decreases edges.len(),
{
    if edges.len() == 0 {
        0
    } else {
        pending(edges.drop_last(), placed, v) + (if edges.last().1 == v && !placed[edges.last().0 as int] {
            1nat
        } else {
            0nat
        })
    }
}

/// The number of edges that are exactly `(u, v)`.
pub open spec fn count_from(edges: Seq<(usize, usize)>, u: usize, v: int) -> nat
    decreases edges.len(),
{
    if edges.len() == 0 {
        0
    } else {
        count_from(edges.drop_last(), u, v) + (if edges.last().0 == u && edges.last().1 == v {
            1nat
        } else {
            0nat
        })
    }
}

/// The set of already placed nodes.
pub open spec fn placed_set(placed: Seq<bool>) -> Set<int> {
    Set::new(|i: int| 0 <= i < placed.len() && placed[i])
}

/// Fewer edges are pending than there are edges.
proof fn lemma_pending_le_len(edges: Seq<(usize, usize)>, placed: Seq<bool>, v: int)
    ensures
        pending(edges, placed, v) <= edges.len(),
    decreases edges.len(),
{
    if edges.len() > 0 {
        lemma_pending_le_len(edges.drop_last(), placed, v);
    }
}

/// Placing `u` removes exactly the `(u, _)` edges from the pending counts.
proof fn lemma_pending_flip(edges: Seq<(usize, usize)>, placed: Seq<bool>, u: usize, v: int)
    requires
        0 <= u < placed.len(),
        !placed[u as int],
        forall|k: int| 0 <= k < edges.len() ==> (#[trigger] edges[k]).0 < placed.len(),
    ensures
        pending(edges, placed.update(u as int, true), v) + count_from(edges, u, v) == pending(
            edges,
            placed,
            v,
        ),
    decreases edges.len(),
{
    if edges.len() > 0 {
        assert(forall|k: int|
            0 <= k < edges.drop_last().len() ==> (#[trigger] edges.drop_last()[k]).0
                < placed.len());
        lemma_pending_flip(edges.drop_last(), placed, u, v);
        let e = edges.last();
        if e.0 == u {
            assert(placed.update(u as int, true)[e.0 as int] == true);
        } else {
            assert(placed.update(u as int, true)[e.0 as int] == placed[e.0 as int]);
        }
    }
}

/// Counting a concatenation counts both parts.
proof fn lemma_count_concat(s1: Seq<(usize, usize)>, s2: Seq<(usize, usize)>, u: usize, v: int)
    ensures
        count_from(s1 + s2, u, v) == count_from(s1, u, v) + count_from(s2, u, v),
    decreases s2.len(),
{
    if s2.len() == 0 {
        assert(s1 + s2 =~= s1);
    } else {
        assert((s1 + s2).drop_last() =~= s1 + s2.drop_last());
        assert((s1 + s2).last() == s2.last());
        lemma_count_concat(s1, s2.drop_last(), u, v);
    }
}

/// Stepping the suffix boundary by one edge.
proof fn lemma_count_skip_step(edges: Seq<(usize, usize)>, j: int, u: usize, v: int)
    requires
        0 <= j < edges.len(),
    ensures
        count_from(edges.skip(j), u, v) == count_from(edges.skip(j + 1), u, v) + (if edges[j].0
            == u && edges[j].1 == v {
            1nat
        } else {
            0nat
        }),
{
    let single = seq![edges[j]];
    assert(edges.skip(j) =~= single + edges.skip(j + 1));
    lemma_count_concat(single, edges.skip(j + 1), u, v);
    assert(single.len() == 1 && single.last() == edges[j]);
    assert(single.drop_last() =~= Seq::<(usize, usize)>::empty());
    assert(count_from(single.drop_last(), u, v) == 0);
    assert(count_from(single, u, v) == (if edges[j].0 == u && edges[j].1 == v {
        1nat
    } else {
        0nat
    }));
}

/// When nothing is pending for `v`, the source of every edge into `v` has
/// been placed.
proof fn lemma_pending_zero_placed(
    edges: Seq<(usize, usize)>,
    placed: Seq<bool>,
    v: int,
    k: int,
)
    requires
        pending(edges, placed, v) == 0,
        0 <= k < edges.len(),
        edges[k].1 == v,
    ensures
        placed[edges[k].0 as int],
    decreases edges.len(),
{
    if k < edges.len() - 1 {
        lemma_pending_zero_placed(edges.drop_last(), placed, v, k);
    }
}

/// When something is pending for `v`, some edge into `v` has an unplaced
/// source.
pub open spec fn has_unplaced_source_edge(
    edges: Seq<(usize, usize)>,
    placed: Seq<bool>,
    v: int,
) -> bool {
    exists|k: int|
        0 <= k < edges.len() && (#[trigger] edges[k]).1 == v && !placed[edges[k].0 as int]
}

proof fn lemma_pending_pos_witness(edges: Seq<(usize, usize)>, placed: Seq<bool>, v: int)
    requires
        pending(edges, placed, v) > 0,
    ensures
        has_unplaced_source_edge(edges, placed, v),
    decreases edges.len(),
{
    if edges.last().1 == v && !placed[edges.last().0 as int] {
        assert(edges[edges.len() - 1].1 == v && !placed[edges[edges.len() - 1].0 as int]);
    } else {
        lemma_pending_pos_witness(edges.drop_last(), placed, v);
        let k = choose|k: int|
            0 <= k < edges.drop_last().len() && (#[trigger] edges.drop_last()[k]).1 == v
                && !placed[edges.drop_last()[k].0 as int];
        assert(edges[k] == edges.drop_last()[k]);
    }
}

/// In a topological order, everything up to position `p` is placed —
/// provided every unplaced node keeps an edge from an unplaced source.
proof fn lemma_prefix_placed(
    n: nat,
    edges: Seq<(usize, usize)>,
    placed: Seq<bool>,
    order: Seq<usize>,
    p: int,
)
    requires
        placed.len() == n,
        forall|k: int| 0 <= k < edges.len() ==> (#[trigger] edges[k]).0 < n && edges[k].1 < n,
        forall|v: int|
            0 <= v < n && !placed[v] ==> has_unplaced_source_edge(edges, placed, v),
        is_topo_order(n, edges, order),
        0 <= p <= n,
    ensures
        forall|q: int| 0 <= q < p ==> placed[#[trigger] order[q] as int],
    decreases p,
{
    if p > 0 {
        lemma_prefix_placed(n, edges, placed, order, p - 1);
        let v = order[p - 1];
        if !placed[v as int] {
            assert(has_unplaced_source_edge(edges, placed, v as int));
            let k = choose|k: int|
                0 <= k < edges.len() && (#[trigger] edges[k]).1 == v as int && !placed[edges[k].0 as int];
            let a = edges[k].0;
            assert(order.contains(a));
            let i = choose|i: int| 0 <= i < order.len() && order[i] == a;
            assert(order[i] == edges[k].0 && order[p - 1] == edges[k].1);
            assert(i < p - 1);
            assert(placed[order[i] as int]);
            assert(false);
        }
    }
}

/// When the sort is stuck — some node is unplaced, and every unplaced node
/// has an incoming edge from an unplaced source — no topological order of
/// the graph exists.
proof fn lemma_stuck_no_order(n: nat, edges: Seq<(usize, usize)>, placed: Seq<bool>)
    requires
        placed.len() == n,
        forall|k: int| 0 <= k < edges.len() ==> (#[trigger] edges[k]).0 < n && edges[k].1 < n,
        exists|v: int| 0 <= v < n && !(#[trigger] placed[v]),
        forall|v: int|
            0 <= v < n && !(#[trigger] placed[v]) ==> has_unplaced_source_edge(edges, placed, v),
    ensures
        forall|order: Seq<usize>| !is_topo_order(n, edges, order),
{
    let v0 = choose|v: int| 0 <= v < n && !(#[trigger] placed[v]);
    assert forall|order: Seq<usize>| !is_topo_order(n, edges, order) by {
        if is_topo_order(n, edges, order) {
            lemma_prefix_placed(n, edges, placed, order, n as int);
            assert(order.contains(v0 as usize));
            let i = choose|i: int| 0 <= i < order.len() && order[i] == v0 as usize;
            assert(placed[order[i] as int]);
            assert(false);
        }
    };
}

/// The nodes of `cycle` form a directed cycle: each consecutive pair is an
/// edge, and so is the pair of the last and the first.
pub open spec fn is_cycle(edges: Seq<(usize, usize)>, cycle: Seq<usize>) -> bool {
    &&& cycle.len() > 0
    &&& (forall|i: int|
        0 <= i < cycle.len() - 1 ==> edges.contains((#[trigger] cycle[i], cycle[i + 1])))
    &&& edges.contains((cycle.last(), cycle[0]))
}

/// The position of node `v` in an order.
pub open spec fn order_position(order: Seq<usize>, v: usize) -> int {
    choose|i: int| 0 <= i < order.len() && order[i] == v
}

/// A node of the graph sits at its position.
proof fn lemma_order_position(n: nat, edges: Seq<(usize, usize)>, order: Seq<usize>, v: usize)
    requires
        is_topo_order(n, edges, order),
        v < n,
    ensures
        0 <= order_position(order, v) < order.len(),
        order[order_position(order, v)] == v,
{
    assert(order.contains(v));
    let i = choose|i: int| 0 <= i < order.len() && order[i] == v;
    assert(order[order_position(order, v)] == v);
}

/// An edge forces its source before its target in a topological order.
proof fn lemma_edge_orders(n: nat, edges: Seq<(usize, usize)>, order: Seq<usize>, a: usize, b: usize)
    requires
        is_topo_order(n, edges, order),
        forall|k: int| 0 <= k < edges.len() ==> (#[trigger] edges[k]).0 < n && edges[k].1 < n,
        edges.contains((a, b)),
    ensures
        order_position(order, a) < order_position(order, b),
{
    let k = choose|k: int| 0 <= k < edges.len() && edges[k] == (a, b);
    lemma_order_position(n, edges, order, a);
    lemma_order_position(n, edges, order, b);
    assert(order[order_position(order, a)] == edges[k].0);
    assert(order[order_position(order, b)] == edges[k].1);
}

/// Walking a cycle moves strictly forward in any topological order.
proof fn lemma_cycle_positions(
    n: nat,
    edges: Seq<(usize, usize)>,
    order: Seq<usize>,
    cycle: Seq<usize>,
    k: int,
)
    requires
        is_topo_order(n, edges, order),
        forall|kk: int| 0 <= kk < edges.len() ==> (#[trigger] edges[kk]).0 < n && edges[kk].1 < n,
        is_cycle(edges, cycle),
        1 <= k < cycle.len(),
    ensures
        order_position(order, cycle[0]) < order_position(order, cycle[k]),
    decreases k,
{
    assert(edges.contains((cycle[k - 1], cycle[k])));
    lemma_edge_orders(n, edges, order, cycle[k - 1], cycle[k]);
    if k > 1 {
        lemma_cycle_positions(n, edges, order, cycle, k - 1);
    }
}

/// Law: a directed cycle rules out every topological order.
pub proof fn lemma_cycle_has_no_topo_order(
    n: nat,
    edges: Seq<(usize, usize)>,
    cycle: Seq<usize>,
)
    requires
        forall|k: int| 0 <= k < edges.len() ==> (#[trigger] edges[k]).0 < n && edges[k].1 < n,
        is_cycle(edges, cycle),
    ensures
        forall|order: Seq<usize>| !is_topo_order(n, edges, order),
{
    assert forall|order: Seq<usize>| !is_topo_order(n, edges, order) by {
        if is_topo_order(n, edges, order) {
            let last = cycle.len() - 1;
            if last == 0 {
                assert(edges.contains((cycle[0], cycle[0])));
                lemma_edge_orders(n, edges, order, cycle[0], cycle[0]);
            } else {
                lemma_cycle_positions(n, edges, order, cycle, last);
                assert(edges.contains((cycle[last], cycle[0])));
                lemma_edge_orders(n, edges, order, cycle[last], cycle[0]);
            }
            assert(false);
        }
    };
}

/// Computes a topological order of the nodes `0 .. n` under `edges`, or
/// returns `None` exactly when no topological order exists — that is, when
/// the graph is cyclic.
#[verifier::rlimit(100)]
pub fn toposort(n: usize, edges: &Vec<(usize, usize)>) -> (r: Option<Vec<usize>>)
    requires
        forall|k: int| 0 <= k < edges@.len() ==> (#[trigger] edges@[k]).0 < n && edges@[k].1 < n,
    ensures
        (match r {
            Some(order) => is_topo_order(n as nat, edges@, order@),
            None => !(exists|order: Seq<usize>| is_topo_order(n as nat, edges@, order)),
        }),
{
    let mut placed: Vec<bool> = Vec::new();
    let mut seen: Vec<bool> = Vec::new();
    let mut indeg: Vec<usize> = Vec::new();
    let mut i: usize = 0;
    while i < n
        invariant
            i <= n,
            placed@.len() == i,
            seen@.len() == i,
            indeg@.len() == i,
            forall|v: int| 0 <= v < i ==> !placed@[v] && !seen@[v] && indeg@[v] == 0,
        decreases n - i,
    {
        placed.push(false);
        seen.push(false);
        indeg.push(0);
        i = i + 1;
    }

    // Count the in-degree of every node.
    let mut k: usize = 0;
    proof {
        assert(edges@.take(0) =~= Seq::<(usize, usize)>::empty());
    }
    while k < edges.len()
        invariant
            k <= edges@.len(),
            edges@.len() == edges.len(),
            indeg@.len() == n,
            placed@.len() == n,
            seen@.len() == n,
            forall|kk: int| 0 <= kk < edges@.len() ==> (#[trigger] edges@[kk]).0 < n
                && edges@[kk].1 < n,
            forall|v: int| 0 <= v < n ==> !placed@[v] && !seen@[v],
            forall|v: int| 0 <= v < n ==> indeg@[v] == pending(
                edges@.take(k as int),
                placed@,
                v,
            ),
        decreases edges@.len() - k,
    {
        let b = edges[k].1;
        proof {
            lemma_pending_le_len(edges@.take(k as int), placed@, b as int);
        }
        let cur = indeg[b];
        indeg[b] = cur + 1;
        k = k + 1;
        proof {
            let prev = edges@.take(k - 1);
            let next = edges@.take(k as int);
            assert(next.drop_last() =~= prev);
            assert(next.last() == edges@[k - 1]);
            assert forall|v: int| 0 <= v < n implies indeg@[v] == pending(next, placed@, v) by {
                if v == b as int {
                    assert(pending(next, placed@, v) == pending(prev, placed@, v) + 1);
                } else {
                    assert(pending(next, placed@, v) == pending(prev, placed@, v));
                }
            };
        }
    }
    proof {
        assert(edges@.take(edges@.len() as int) =~= edges@);
    }

    // Queue up the nodes that start with no incoming edges.
    let mut queue: Vec<usize> = Vec::new();
    let mut w: usize = 0;
    while w < n
        invariant
            w <= n,
            edges@.len() == edges.len(),
            indeg@.len() == n,
            placed@.len() == n,
            seen@.len() == n,
            forall|kk: int| 0 <= kk < edges@.len() ==> (#[trigger] edges@[kk]).0 < n
                && edges@[kk].1 < n,
            forall|v: int| 0 <= v < n ==> !placed@[v],
            forall|v: int| 0 <= v < n ==> indeg@[v] == pending(edges@, placed@, v),
            forall|v: int| w <= v < n ==> !seen@[v],
            forall|v: usize| v < n ==> (seen@[v as int] <==> queue@.contains(v)),
            forall|qi: int, qj: int|
                0 <= qi < queue@.len() && 0 <= qj < queue@.len() && qi != qj ==> queue@[qi]
                    != queue@[qj],
            forall|qi: int| 0 <= qi < queue@.len() ==> (#[trigger] queue@[qi]) < n
                && seen@[queue@[qi] as int] && indeg@[queue@[qi] as int] == 0,
            forall|v: int| 0 <= v < n && !seen@[v] && indeg@[v] == 0 ==> v >= w,
        decreases n - w,
    {
        if indeg[w] == 0 {
            let ghost qpre = queue@;
            queue.push(w);
            seen[w] = true;
            proof {
                assert(queue@.drop_last() =~= qpre);
                assert forall|v: usize| v < n implies (seen@[v as int] <==> queue@.contains(
                    v,
                )) by {
                    if queue@.contains(v) {
                        let qi = choose|qi: int| 0 <= qi < queue@.len() && queue@[qi] == v;
                        if qi < queue@.len() - 1 {
                            assert(qpre[qi] == v);
                        }
                    }
                    if v != w && qpre.contains(v) {
                        let qi = choose|qi: int| 0 <= qi < qpre.len() && qpre[qi] == v;
                        assert(queue@[qi] == v);
                    }
                    if v == w {
                        assert(queue@[queue@.len() - 1] == v);
                    }
                };
            }
        }
        w = w + 1;
    }

    // Repeatedly emit a node with no remaining incoming edges.
    let mut order: Vec<usize> = Vec::new();
    proof {
        assert(placed_set(placed@) =~= Set::<int>::empty());
        lemma_int_range(0, n as int);
    }
    while queue.len() > 0
        invariant
            edges@.len() == edges.len(),
            indeg@.len() == n,
            placed@.len() == n,
            seen@.len() == n,
            forall|kk: int| 0 <= kk < edges@.len() ==> (#[trigger] edges@[kk]).0 < n
                && edges@[kk].1 < n,
            forall|v: int| 0 <= v < n ==> indeg@[v] == pending(edges@, placed@, v),
            forall|oi: int| 0 <= oi < order@.len() ==> (#[trigger] order@[oi]) < n
                && placed@[order@[oi] as int],
            forall|v: usize| v < n ==> (placed@[v as int] <==> order@.contains(v)),
            forall|oi: int, oj: int|
                0 <= oi < order@.len() && 0 <= oj < order@.len() && oi != oj ==> order@[oi]
                    != order@[oj],
            forall|qi: int| 0 <= qi < queue@.len() ==> (#[trigger] queue@[qi]) < n
                && seen@[queue@[qi] as int] && !placed@[queue@[qi] as int]
                && indeg@[queue@[qi] as int] == 0,
            forall|qi: int, qj: int|
                0 <= qi < queue@.len() && 0 <= qj < queue@.len() && qi != qj ==> queue@[qi]
                    != queue@[qj],
            forall|v: usize| v < n ==> (seen@[v as int] <==> (placed@[v as int]
                || queue@.contains(v))),
            forall|v: int| 0 <= v < n && !seen@[v] ==> indeg@[v] > 0,
            forall|ki: int, oi: int, oj: int|
                #![trigger edges@[ki], order@[oi], order@[oj]]
                0 <= ki < edges@.len() && 0 <= oi < order@.len() && 0 <= oj < order@.len()
                    && order@[oi] == edges@[ki].0 && order@[oj] == edges@[ki].1 ==> oi < oj,
            forall|ki: int| 0 <= ki < edges@.len() && placed@[(#[trigger] edges@[ki]).1 as int]
                ==> placed@[edges@[ki].0 as int],
            placed_set(placed@).finite(),
            placed_set(placed@).len() == order@.len(),
            order@.len() <= n,
        decreases n - order@.len(),
    {
        let ghost placed_old = placed@;
        let ghost queue_old = queue@;
        let u_opt = queue.pop();
        let u = u_opt.unwrap();
        proof {
            assert(queue_old[queue_old.len() - 1] == u);
            assert(u < n && !placed@[u as int] && indeg@[u as int] == 0);
        }
        let ghost order_old = order@;
        order.push(u);
        placed[u] = true;
        proof {
            let m = order@.len() - 1;
            assert(order@.drop_last() =~= order_old);
            assert(order@.last() == u);
            // the popped node was a queue element
            assert(!placed_old[u as int] && indeg@[u as int] == 0);
            // pending for u was zero, so every edge into u comes from a placed node
            assert forall|ki: int|
                0 <= ki < edges@.len() && (#[trigger] edges@[ki]).1 == u implies placed_old[edges@[ki].0 as int] by {
                lemma_pending_zero_placed(edges@, placed_old, u as int, ki);
            };
            // order stays injective and mirrors placement
            assert forall|v: usize| v < n implies (placed@[v as int] <==> order@.contains(
                v,
            )) by {
                if order@.contains(v) {
                    let oi = choose|oi: int| 0 <= oi < order@.len() && order@[oi] == v;
                    if oi < m {
                        assert(order_old[oi] == v);
                    }
                }
                if placed@[v as int] && v != u {
                    assert(placed_old[v as int]);
                    assert(order_old.contains(v));
                    let oi = choose|oi: int| 0 <= oi < order_old.len() && order_old[oi] == v;
                    assert(order@[oi] == v);
                }
                if v == u {
                    assert(order@[m] == v);
                }
            };
            // the edge-respecting order extends to the new position
            assert forall|ki: int, oi: int, oj: int|
                #![trigger edges@[ki], order@[oi], order@[oj]]
                0 <= ki < edges@.len() && 0 <= oi < order@.len() && 0 <= oj < order@.len()
                    && order@[oi] == edges@[ki].0 && order@[oj] == edges@[ki].1 implies oi
                < oj by {
                if oj == m && oi == m {
                    assert(placed_old[edges@[ki].0 as int]);
                    assert(false);
                } else if oj == m {
                    assert(placed_old[edges@[ki].0 as int]);
                    assert(order_old.contains(edges@[ki].0));
                } else if oi == m {
                    assert(order_old[oj] == edges@[ki].1);
                    assert(placed_old[edges@[ki].1 as int]);
                    assert(placed_old[edges@[ki].0 as int]);
                    assert(false);
                } else {
                    assert(order_old[oi] == edges@[ki].0);
                    assert(order_old[oj] == edges@[ki].1);
                }
            };
            // cardinality of the placed set grows by one
            assert(placed_set(placed@) =~= placed_set(placed_old).insert(u as int));
            assert(!placed_set(placed_old).contains(u as int));
            // the queue lost exactly its last element, which is now placed
            assert(queue@ =~= queue_old.drop_last());
            assert forall|v: usize| v < n implies (seen@[v as int] <==> (placed@[v as int]
                || queue@.contains(v))) by {
                if v != u {
                    if queue_old.contains(v) {
                        let qi = choose|qi: int| 0 <= qi < queue_old.len() && queue_old[qi] == v;
                        assert(qi != queue_old.len() - 1);
                        assert(queue@[qi] == v);
                    }
                    if queue@.contains(v) {
                        let qi = choose|qi: int| 0 <= qi < queue@.len() && queue@[qi] == v;
                        assert(queue_old[qi] == v);
                    }
                }
            };
            assert(placed_set(placed@).len() == order@.len());
            lemma_int_range(0, n as int);
            assert(placed_set(placed@).subset_of(set_int_range(0, n as int)));
            lemma_len_subset(placed_set(placed@), set_int_range(0, n as int));
        }

        // Remove the edges leaving `u` from the pending counts.
        let ghost placed_new = placed@;
        proof {
            assert forall|v: int| 0 <= v < n implies indeg@[v] == pending(edges@, placed_new, v)
                + count_from(edges@.skip(0), u, v) by {
                lemma_pending_flip(edges@, placed_old, u, v);
                assert(edges@.skip(0) =~= edges@);
            };
        }
        let mut j: usize = 0;
        while j < edges.len()
            invariant
                j <= edges@.len(),
                edges@.len() == edges.len(),
                indeg@.len() == n,
                placed@.len() == n,
                seen@.len() == n,
                placed@ == placed_new,
                u < n,
                placed@[u as int],
                order@.len() >= 1,
                order@.last() == u,
                forall|kk: int| 0 <= kk < edges@.len() ==> (#[trigger] edges@[kk]).0 < n
                    && edges@[kk].1 < n,
                forall|v: int| 0 <= v < n ==> indeg@[v] == pending(edges@, placed@, v)
                    + count_from(edges@.skip(j as int), u, v),
                forall|oi: int| 0 <= oi < order@.len() ==> (#[trigger] order@[oi]) < n
                    && placed@[order@[oi] as int],
                forall|v: usize| v < n ==> (placed@[v as int] <==> order@.contains(v)),
                forall|oi: int, oj: int|
                    0 <= oi < order@.len() && 0 <= oj < order@.len() && oi != oj ==> order@[oi]
                        != order@[oj],
                forall|qi: int| 0 <= qi < queue@.len() ==> (#[trigger] queue@[qi]) < n
                    && seen@[queue@[qi] as int] && !placed@[queue@[qi] as int]
                    && indeg@[queue@[qi] as int] == 0,
                forall|qi: int, qj: int|
                    0 <= qi < queue@.len() && 0 <= qj < queue@.len() && qi != qj ==> queue@[qi]
                        != queue@[qj],
                forall|v: usize| v < n ==> (seen@[v as int] <==> (placed@[v as int]
                    || queue@.contains(v))),
                forall|v: int| 0 <= v < n && !seen@[v] ==> indeg@[v] > 0,
                forall|ki: int, oi: int, oj: int|
                    #![trigger edges@[ki], order@[oi], order@[oj]]
                    0 <= ki < edges@.len() && 0 <= oi < order@.len() && 0 <= oj < order@.len()
                        && order@[oi] == edges@[ki].0 && order@[oj] == edges@[ki].1 ==> oi < oj,
                forall|ki: int| 0 <= ki < edges@.len() && placed@[(#[trigger] edges@[ki]).1 as int]
                    ==> placed@[edges@[ki].0 as int],
            decreases edges@.len() - j,
        {
            if edges[j].0 == u {
                let b = edges[j].1;
                proof {
                    lemma_count_skip_step(edges@, j as int, u, b as int);
                    assert(count_from(edges@.skip(j as int), u, b as int) >= 1);
                    // `b` is not placed: otherwise the order would demand that
                    // `u` precede a node placed before it
                    if placed@[b as int] {
                        let m = order@.len() - 1;
                        assert(order@.contains(b));
                        let oj = choose|oj: int| 0 <= oj < order@.len() && order@[oj] == b;
                        assert(order@[m] == edges@[j as int].0 && order@[oj] == edges@[
                            j as int].1);
                        assert(false);
                    }
                    // `b` is not in the queue: queue members have no pending edges
                    assert forall|qi: int| 0 <= qi < queue@.len() implies queue@[qi] != b by {
                        assert(indeg@[queue@[qi] as int] == 0);
                    };
                }
                let cur = indeg[b];
                indeg[b] = cur - 1;
                if cur == 1 && !seen[b] {
                    let ghost qpre = queue@;
                    queue.push(b);
                    seen[b] = true;
                    proof {
                        assert(queue@.drop_last() =~= qpre);
                        assert forall|v: usize| v < n implies (seen@[v as int] <==> (
                        placed@[v as int] || queue@.contains(v))) by {
                            if queue@.contains(v) {
                                let qi = choose|qi: int|
                                    0 <= qi < queue@.len() && queue@[qi] == v;
                                if qi < queue@.len() - 1 {
                                    assert(qpre[qi] == v);
                                }
                            }
                            if v != b && (placed@[v as int] || qpre.contains(v)) {
                                if qpre.contains(v) {
                                    let qi = choose|qi: int|
                                        0 <= qi < qpre.len() && qpre[qi] == v;
                                    assert(queue@[qi] == v);
                                }
                            }
                            if v == b {
                                assert(queue@[queue@.len() - 1] == v);
                            }
                        };
                    }
                }
                proof {
                    assert forall|v: int| 0 <= v < n implies indeg@[v] == pending(
                        edges@,
                        placed@,
                        v,
                    ) + count_from(edges@.skip(j + 1), u, v) by {
                        lemma_count_skip_step(edges@, j as int, u, v);
                    };
                }
            } else {
                proof {
                    assert forall|v: int| 0 <= v < n implies count_from(
                        edges@.skip(j as int),
                        u,
                        v,
                    ) == count_from(edges@.skip(j + 1), u, v) by {
                        lemma_count_skip_step(edges@, j as int, u, v);
                    };
                }
            }
            j = j + 1;
        }
        proof {
            assert forall|v: int| 0 <= v < n implies indeg@[v] == pending(edges@, placed@, v) by {
                assert(edges@.skip(edges@.len() as int) =~= Seq::<(usize, usize)>::empty());
                assert(count_from(edges@.skip(edges@.len() as int), u, v) == 0);
            };
        }
    }

    if order.len() == n {
        proof {
            assert forall|v: usize| v < n implies order@.contains(v) by {
                if !placed@[v as int] {
                    assert(placed_set(placed@).subset_of(
                        set_int_range(0, n as int).remove(v as int),
                    ));
                    lemma_int_range(0, n as int);
                    lemma_len_subset(
                        placed_set(placed@),
                        set_int_range(0, n as int).remove(v as int),
                    );
                    assert(set_int_range(0, n as int).remove(v as int).len() == n - 1);
                    assert(false);
                }
            };
        }
        Some(order)
    } else {
        proof {
            lemma_int_range(0, n as int);
            assert(order@.len() < n);
            // some node is still unplaced
            if forall|v: int| 0 <= v < n ==> #[trigger] placed@[v] {
                assert(placed_set(placed@) =~= set_int_range(0, n as int));
                assert(false);
            }
            let v0 = choose|v: int| 0 <= v < n && !(#[trigger] placed@[v]);
            // and every unplaced node has an incoming edge from an unplaced node
            assert forall|v: int|
                0 <= v < n && !(#[trigger] placed@[v]) implies has_unplaced_source_edge(
                edges@,
                placed@,
                v,
            ) by {
                assert(!seen@[v]);
                assert(indeg@[v] > 0);
                lemma_pending_pos_witness(edges@, placed@, v);
            };
            lemma_stuck_no_order(n as nat, edges@, placed@);
        }
        None
    }
}

} // verus!
