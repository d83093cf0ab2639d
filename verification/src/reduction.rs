//! Transitive reduction: dropping the edges that other paths imply.

use std::collections::BTreeSet;
use vstd::prelude::*;
use crate::graph::{
    acyclic, add_neighbor, adjacency_edges, build_adjacency, has_path_in_adjacency, induced,
    lemma_reaches_closed, lemma_reaches_edge, lemma_reaches_first, lemma_reaches_last,
    lemma_reaches_lift, lemma_reaches_mono, lemma_reaches_self, lemma_reaches_trans, reaches, remove_neighbor, within,
};
use crate::ordered::{ascending_pairs, list_pairs};

verus! {

/// The edge from `a` to `b` is implied by a longer path.
pub open spec fn is_implied(edges: Set<(u64, u64)>, a: u64, b: u64) -> bool {
    exists|c: u64| c != b && #[trigger] edges.contains((a, c)) && reaches(edges, c, b)
}

/// The edges that no longer path implies. In an acyclic graph they connect
/// the same nodes as all the edges do, and none of them can be spared.
pub open spec fn reduction(edges: Set<(u64, u64)>) -> Set<(u64, u64)> {
    Set::new(|e: (u64, u64)| edges.contains(e) && !is_implied(edges, e.0, e.1))
}

/// The graph connects the ends of the edge without the edge itself.
pub open spec fn is_redundant(edges: Set<(u64, u64)>, e: (u64, u64)) -> bool {
    reaches(edges.remove(e), e.0, e.1)
}

/// `kept` connects the same nodes as `edges`, and every edge of it is needed.
pub open spec fn is_reduction_of(kept: Set<(u64, u64)>, edges: Set<(u64, u64)>) -> bool {
    &&& kept.subset_of(edges)
    &&& forall|a: u64, b: u64| #[trigger] reaches(edges, a, b) ==> reaches(kept, a, b)
    &&& forall|e: (u64, u64)| #[trigger] kept.contains(e) ==> !is_redundant(kept, e)
}

/// An acyclic graph has exactly one reduction.
pub proof fn lemma_reduction_unique(kept: Set<(u64, u64)>, edges: Set<(u64, u64)>)
    requires
        acyclic(edges),
        is_reduction_of(kept, edges),
    ensures
        kept == reduction(edges),
{
    assert forall|e: (u64, u64)| kept.contains(e) <==> reduction(edges).contains(e) by {
        let (a, b) = e;
        if kept.contains(e) && is_implied(edges, a, b) {
            let c = choose|c: u64| c != b && #[trigger] edges.contains((a, c)) && reaches(edges, c, b);
            lemma_reaches_edge(edges, a, c);
            assert(reaches(kept, a, c));
            assert(reaches(kept, c, b));
            // Neither half of the detour can use the edge itself.
            lemma_detour(kept, edges, a, b, a, c);
            lemma_detour(kept, edges, a, b, c, b);
            lemma_reaches_trans(kept.remove(e), a, c, b);
            assert(is_redundant(kept, e));
        }
        if edges.contains(e) && !is_implied(edges, a, b) && !kept.contains(e) {
            lemma_reaches_edge(edges, a, b);
            assert(reaches(kept, a, b));
            assert(a != b) by {
                lemma_reaches_self(edges, a);
            }
            let c = lemma_reaches_first(kept, a, b);
            assert(edges.contains((a, c)));
            lemma_reaches_mono(kept, edges, c, b);
            assert(c == b);
        }
    }
    assert(kept =~= reduction(edges));
}

/// The nodes on the paths from `a` to `b`.
pub open spec fn between(nodes: Set<u64>, edges: Set<(u64, u64)>, a: u64, b: u64) -> Set<u64> {
    nodes.filter(|z: u64| reaches(edges, a, z) && reaches(edges, z, b))
}

proof fn lemma_between_shrinks(
    nodes: Set<u64>,
    edges: Set<(u64, u64)>,
    a: u64,
    b: u64,
    c: u64,
    d: u64,
    out: u64,
)
    requires
        nodes.finite(),
        reaches(edges, a, c),
        reaches(edges, d, b),
        nodes.contains(out),
        reaches(edges, a, out),
        reaches(edges, out, b),
        !(reaches(edges, c, out) && reaches(edges, out, d)),
    ensures
        between(nodes, edges, c, d).len() < between(nodes, edges, a, b).len(),
{
    let small = between(nodes, edges, c, d);
    let large = between(nodes, edges, a, b);
    vstd::set_lib::lemma_set_subset_finite(nodes, large);
    assert forall|z: u64| small.contains(z) implies large.remove(out).contains(z) by {
        lemma_reaches_trans(edges, a, c, z);
        lemma_reaches_trans(edges, z, d, b);
    }
    vstd::set_lib::lemma_len_subset(small, large.remove(out));
}

/// Dropping the edges that longer paths imply disconnects nothing.
pub proof fn lemma_reduction_connects(nodes: Set<u64>, edges: Set<(u64, u64)>, a: u64, b: u64)
    requires
        nodes.finite(),
        within(nodes, edges),
        acyclic(edges),
        reaches(edges, a, b),
    ensures
        reaches(reduction(edges), a, b),
    decreases between(nodes, edges, a, b).len(),
{
    if a == b {
        lemma_reaches_self(reduction(edges), a);
    } else {
        let c = lemma_reaches_first(edges, a, b);
        lemma_reaches_self(edges, a);
        lemma_reaches_self(edges, b);
        lemma_reaches_edge(edges, a, c);
        if c == b && !is_implied(edges, a, b) {
            lemma_reaches_edge(reduction(edges), a, b);
        } else {
            let d = if c != b {
                c
            } else {
                choose|d: u64| d != b && #[trigger] edges.contains((a, d)) && reaches(edges, d, b)
            };
            assert(edges.contains((a, d)) && d != b && reaches(edges, d, b));
            lemma_reaches_edge(edges, a, d);
            let last = lemma_reaches_last(edges, d, b);
            assert(nodes.contains(b));
            assert(!reaches(edges, b, d)) by {
                if reaches(edges, b, d) {
                    lemma_reaches_trans(edges, b, d, last);
                }
            }
            assert(!reaches(edges, d, a));
            lemma_between_shrinks(nodes, edges, a, b, a, d, b);
            lemma_between_shrinks(nodes, edges, a, b, d, b, a);
            lemma_reduction_connects(nodes, edges, a, d);
            lemma_reduction_connects(nodes, edges, d, b);
            lemma_reaches_trans(reduction(edges), a, d, b);
        }
    }
}

/// What is left after implied edges were dropped connects the same nodes, and without any one of
/// its edges it would not.
pub proof fn lemma_reduction_is_minimal(nodes: Set<u64>, edges: Set<(u64, u64)>)
    requires
        nodes.finite(),
        within(nodes, edges),
        acyclic(edges),
    ensures
        reduction(edges).subset_of(edges),
        forall|a: u64, b: u64| #[trigger]
            reaches(edges, a, b) <==> reaches(reduction(edges), a, b),
        forall|e: (u64, u64)| #[trigger]
            reduction(edges).contains(e) ==> !reaches(reduction(edges).remove(e), e.0, e.1),
{
    let kept = reduction(edges);
    assert forall|a: u64, b: u64| #[trigger] reaches(edges, a, b) <==> reaches(kept, a, b) by {
        if reaches(edges, a, b) {
            lemma_reduction_connects(nodes, edges, a, b);
        }
        if reaches(kept, a, b) {
            lemma_reaches_mono(kept, edges, a, b);
        }
    }
    assert forall|e: (u64, u64)| #[trigger] kept.contains(e) implies !reaches(
        kept.remove(e),
        e.0,
        e.1,
    ) by {
        let rest = kept.remove(e);
        if reaches(rest, e.0, e.1) {
            assert(e.0 != e.1) by {
                lemma_reaches_self(edges, e.0);
                assert(edges.contains((e.0, e.1)));
            }
            let c = lemma_reaches_first(rest, e.0, e.1);
            lemma_reaches_mono(rest, edges, c, e.1);
            assert(edges.contains((e.0, c)));
            assert(c != e.1);
            assert(is_implied(edges, e.0, e.1));
        }
    }
}

/// In an acyclic graph, a detour that leads from the start of the edge to
/// another node, or from another node to its end, does not use the edge.
proof fn lemma_detour(
    kept: Set<(u64, u64)>,
    edges: Set<(u64, u64)>,
    a: u64,
    b: u64,
    x: u64,
    y: u64,
)
    requires
        acyclic(edges),
        kept.subset_of(edges),
        edges.contains((a, b)),
        reaches(kept, x, y),
        (x == a && y != b && reaches(edges, y, b)) || (y == b && x != a && edges.contains((a, x))),
    ensures
        reaches(kept.remove((a, b)), x, y),
{
    let rest = kept.remove((a, b));
    if x == a {
        // Nodes before `b` on the way: everything reached without the edge, or past `b`.
        let good = Set::new(|z: u64| reaches(rest, x, z) || reaches(edges, b, z));
        lemma_reaches_self(rest, x);
        assert forall|u: u64, v: u64|
            good.contains(u) && #[trigger] kept.contains((u, v)) implies good.contains(v) by {
            if reaches(edges, b, u) {
                lemma_reaches_edge(edges, u, v);
                lemma_reaches_trans(edges, b, u, v);
            } else if (u, v) == (a, b) {
                lemma_reaches_self(edges, b);
            } else {
                assert(rest.contains((u, v)));
                lemma_reaches_edge(rest, u, v);
                lemma_reaches_trans(rest, x, u, v);
            }
        }
        lemma_reaches_closed(kept, good, x, y);
        if reaches(edges, b, y) {
            // `y` reaches `b` and `b` reaches `y`: a cycle.
            let w = lemma_reaches_first(edges, y, b);
            lemma_reaches_trans(edges, w, b, y);
            assert(false);
        }
    } else {
        // Starting past `a`, the path can never come back to `a`.
        let past = Set::new(|z: u64| reaches(rest, x, z) && reaches(edges, x, z));
        lemma_reaches_self(rest, x);
        lemma_reaches_self(edges, x);
        assert forall|u: u64, v: u64|
            past.contains(u) && #[trigger] kept.contains((u, v)) implies past.contains(v) by {
            if u == a {
                assert(false);
            }
            assert(rest.contains((u, v)));
            lemma_reaches_edge(rest, u, v);
            lemma_reaches_trans(rest, x, u, v);
            lemma_reaches_edge(edges, u, v);
            lemma_reaches_trans(edges, x, u, v);
        }
        lemma_reaches_closed(kept, past, x, y);
    }
}

/// Drops, in ascending order, each edge whose ends the remaining edges still connect.
pub(crate) fn transitive_reduction(
    nodes: &BTreeSet<u64>,
    edges: &BTreeSet<(u64, u64)>,
) -> (reduced: BTreeSet<(u64, u64)>)
    requires
        within(nodes@, edges@),
    ensures
        is_reduction_of(reduced@, edges@),
        acyclic(edges@) ==> reduced@ == reduction(edges@),
{
    let mut reduced: BTreeSet<(u64, u64)> = edges.clone();
    let mut adjacency = build_adjacency(nodes, &reduced);
    assert(induced(nodes@, edges@) =~= edges@);
    let ordered_edges = list_pairs(edges);
    for i in 0..ordered_edges.len()
        invariant
            ordered_edges@.to_set() == edges@,
            ascending_pairs(ordered_edges@),
            adjacency_edges(adjacency@) == reduced@,
            reduced@.subset_of(edges@),
            forall|a: u64, b: u64| #[trigger] reaches(edges@, a, b) ==> reaches(reduced@, a, b),
            forall|j: int|
                i <= j < ordered_edges@.len() ==> reduced@.contains(#[trigger] ordered_edges@[j]),
            forall|j: int|
                0 <= j < i && reduced@.contains(#[trigger] ordered_edges@[j]) ==> !is_redundant(
                    reduced@,
                    ordered_edges@[j],
                ),
    {
        let (from, to) = ordered_edges[i];
        let ghost e = (from, to);
        let ghost before = reduced@;
        assert(reduced@.contains(ordered_edges@[i as int]));
        reduced.remove(&(from, to));
        remove_neighbor(&mut adjacency, from, to);
        let ghost without = before.remove(e);
        if !has_path_in_adjacency(from, to, &adjacency) {
            reduced.insert((from, to));
            add_neighbor(&mut adjacency, from, to);
            proof {
                assert(reduced@ =~= before);
                assert(!is_redundant(before, e));
            }
        } else {
            proof {
                assert forall|a: u64, b: u64| #[trigger] reaches(edges@, a, b) implies reaches(
                    without,
                    a,
                    b,
                ) by {
                    assert forall|x: u64, y: u64| #[trigger] before.contains((x, y)) implies reaches(
                        without,
                        x,
                        y,
                    ) by {
                        if (x, y) != e {
                            lemma_reaches_edge(without, x, y);
                        }
                    }
                    lemma_reaches_lift(before, without, a, b);
                }
                assert forall|j: int|
                    0 <= j < i && reduced@.contains(#[trigger] ordered_edges@[j]) implies !is_redundant(
                    without,
                    ordered_edges@[j],
                ) by {
                    let f = ordered_edges@[j];
                    assert(!is_redundant(before, f));
                    if is_redundant(without, f) {
                        lemma_reaches_mono(without.remove(f), before.remove(f), f.0, f.1);
                    }
                }
                assert forall|j: int| 0 <= j < ordered_edges@.len() && j != i implies #[trigger] ordered_edges@[j]
                    != e by {}
            }
        }
    }
    proof {
        assert forall|e: (u64, u64)| #[trigger] reduced@.contains(e) implies !is_redundant(
            reduced@,
            e,
        ) by {
            assert(ordered_edges@.to_set().contains(e));
            let j = choose|j: int| 0 <= j < ordered_edges@.len() && ordered_edges@[j] == e;
            assert(reduced@.contains(ordered_edges@[j]));
        }
        if acyclic(edges@) {
            lemma_reduction_unique(reduced@, edges@);
        }
    }
    reduced
}

} // verus!
