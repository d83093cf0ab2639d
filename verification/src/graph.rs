//! Directed graphs over transaction identifiers: paths, reachability and
//! adjacency.

use std::collections::{BTreeMap, BTreeSet};
use vstd::prelude::*;
use vstd::std_specs::btree::spec_btree_keys_iter;
use vstd::std_specs::iter::IteratorSpec;
use crate::ordered::{lemma_pairs_iter, list_ids};

verus! {

/// The step of `p` from position `i` to the next follows an edge.
pub open spec fn is_step(edges: Set<(u64, u64)>, p: Seq<u64>, i: int) -> bool {
    edges.contains((p[i], p[i + 1]))
}

/// `p` follows the edges.
pub open spec fn is_path(edges: Set<(u64, u64)>, p: Seq<u64>) -> bool {
    &&& p.len() > 0
    &&& forall|i: int| 0 <= i < p.len() - 1 ==> #[trigger] is_step(edges, p, i)
}

/// `b` can be reached from `a` along zero or more edges.
pub open spec fn reaches(edges: Set<(u64, u64)>, a: u64, b: u64) -> bool {
    exists|p: Seq<u64>| #[trigger] is_path(edges, p) && p[0] == a && p.last() == b
}

/// `a` and `b` lie on a common cycle, or are the same node.
pub open spec fn strongly_connected(edges: Set<(u64, u64)>, a: u64, b: u64) -> bool {
    reaches(edges, a, b) && reaches(edges, b, a)
}

/// The edges with both ends in `nodes`.
pub open spec fn induced(nodes: Set<u64>, edges: Set<(u64, u64)>) -> Set<(u64, u64)> {
    Set::new(|e: (u64, u64)| edges.contains(e) && nodes.contains(e.0) && nodes.contains(e.1))
}

/// Both ends of every edge are in `nodes`.
pub open spec fn within(nodes: Set<u64>, edges: Set<(u64, u64)>) -> bool {
    forall|e: (u64, u64)| #[trigger] edges.contains(e) ==> nodes.contains(e.0) && nodes.contains(e.1)
}

/// No cycle, not even an edge from a node to itself.
pub open spec fn acyclic(edges: Set<(u64, u64)>) -> bool {
    forall|a: u64, b: u64| #[trigger] edges.contains((a, b)) ==> !reaches(edges, b, a)
}

/// The edges that an adjacency map stands for.
pub open spec fn adjacency_edges(adjacency: Map<u64, BTreeSet<u64>>) -> Set<(u64, u64)> {
    Set::new(|e: (u64, u64)| adjacency.contains_key(e.0) && adjacency[e.0]@.contains(e.1))
}

/// Every node reaches itself.
pub proof fn lemma_reaches_self(edges: Set<(u64, u64)>, a: u64)
    ensures
        reaches(edges, a, a),
{
    let p = seq![a];
    assert(is_path(edges, p));
    assert(p.last() == a);
}

/// An edge is a path.
pub proof fn lemma_reaches_edge(edges: Set<(u64, u64)>, a: u64, b: u64)
    requires
        edges.contains((a, b)),
    ensures
        reaches(edges, a, b),
{
    let p = seq![a, b];
    assert(is_step(edges, p, 0));
    assert(is_path(edges, p));
    assert(p[0] == a && p.last() == b);
}

/// Paths compose.
pub proof fn lemma_reaches_trans(edges: Set<(u64, u64)>, a: u64, b: u64, c: u64)
    requires
        reaches(edges, a, b),
        reaches(edges, b, c),
    ensures
        reaches(edges, a, c),
{
    let p = choose|p: Seq<u64>| #[trigger] is_path(edges, p) && p[0] == a && p.last() == b;
    let q = choose|q: Seq<u64>| #[trigger] is_path(edges, q) && q[0] == b && q.last() == c;
    let r = p + q.skip(1);
    assert forall|i: int| 0 <= i < r.len() - 1 implies #[trigger] is_step(edges, r, i) by {
        if i < p.len() - 1 {
            assert(is_step(edges, p, i));
            assert(r[i] == p[i] && r[i + 1] == p[i + 1]);
        } else {
            let k = i - (p.len() - 1);
            assert(is_step(edges, q, k));
            assert(r[i] == q[k]);
            assert(r[i + 1] == q[k + 1]);
        }
    }
    assert(is_path(edges, r));
    assert(r[0] == a);
    assert(r.last() == c);
}

/// A path within fewer edges is a path.
pub proof fn lemma_reaches_mono(small: Set<(u64, u64)>, large: Set<(u64, u64)>, a: u64, b: u64)
    requires
        small.subset_of(large),
        reaches(small, a, b),
    ensures
        reaches(large, a, b),
{
    let p = choose|p: Seq<u64>| #[trigger] is_path(small, p) && p[0] == a && p.last() == b;
    assert forall|i: int| 0 <= i < p.len() - 1 implies #[trigger] is_step(large, p, i) by {
        assert(is_step(small, p, i));
    }
    assert(is_path(large, p));
}

/// If one graph connects the ends of every edge of another, it connects the ends of
/// every path of the other.
pub proof fn lemma_reaches_lift(steps: Set<(u64, u64)>, edges: Set<(u64, u64)>, a: u64, b: u64)
    requires
        reaches(steps, a, b),
        forall|x: u64, y: u64| #[trigger] steps.contains((x, y)) ==> reaches(edges, x, y),
    ensures
        reaches(edges, a, b),
{
    let from_a = Set::new(|x: u64| reaches(edges, a, x));
    lemma_reaches_self(edges, a);
    assert forall|x: u64, y: u64|
        from_a.contains(x) && #[trigger] steps.contains((x, y)) implies from_a.contains(y) by {
        lemma_reaches_trans(edges, a, x, y);
    }
    lemma_reaches_closed(steps, from_a, a, b);
}

/// A path cannot leave a set that no edge leaves.
pub proof fn lemma_reaches_closed(edges: Set<(u64, u64)>, set: Set<u64>, a: u64, b: u64)
    requires
        set.contains(a),
        reaches(edges, a, b),
        forall|x: u64, y: u64| set.contains(x) && #[trigger] edges.contains((x, y)) ==> set.contains(y),
    ensures
        set.contains(b),
{
    let p = choose|p: Seq<u64>| #[trigger] is_path(edges, p) && p[0] == a && p.last() == b;
    lemma_path_closed(edges, set, p, p.len() - 1);
}

proof fn lemma_path_closed(edges: Set<(u64, u64)>, set: Set<u64>, p: Seq<u64>, i: int)
    requires
        is_path(edges, p),
        set.contains(p[0]),
        forall|x: u64, y: u64| set.contains(x) && #[trigger] edges.contains((x, y)) ==> set.contains(y),
        0 <= i < p.len(),
    ensures
        set.contains(p[i]),
    decreases i,
{
    if i > 0 {
        lemma_path_closed(edges, set, p, i - 1);
        assert(is_step(edges, p, i - 1));
    }
}

/// A path between different nodes starts with an edge.
pub proof fn lemma_reaches_first(edges: Set<(u64, u64)>, a: u64, b: u64) -> (c: u64)
    requires
        reaches(edges, a, b),
        a != b,
    ensures
        edges.contains((a, c)),
        reaches(edges, c, b),
{
    let p = choose|p: Seq<u64>| #[trigger] is_path(edges, p) && p[0] == a && p.last() == b;
    let q = p.skip(1);
    assert(is_step(edges, p, 0));
    assert forall|i: int| 0 <= i < q.len() - 1 implies #[trigger] is_step(edges, q, i) by {
        assert(is_step(edges, p, i + 1));
        assert(q[i] == p[i + 1] && q[i + 1] == p[i + 1 + 1]);
    }
    assert(is_path(edges, q));
    assert(q.last() == b);
    q[0]
}

/// A path between different nodes ends with an edge.
pub proof fn lemma_reaches_last(edges: Set<(u64, u64)>, a: u64, b: u64) -> (c: u64)
    requires
        reaches(edges, a, b),
        a != b,
    ensures
        reaches(edges, a, c),
        edges.contains((c, b)),
{
    let p = choose|p: Seq<u64>| #[trigger] is_path(edges, p) && p[0] == a && p.last() == b;
    let q = p.drop_last();
    assert(is_step(edges, p, p.len() - 2));
    assert forall|i: int| 0 <= i < q.len() - 1 implies #[trigger] is_step(edges, q, i) by {
        assert(is_step(edges, p, i));
        assert(q[i] == p[i] && q[i + 1] == p[i + 1]);
    }
    assert(is_path(edges, q));
    assert(q.last() == p[p.len() - 2]);
    q.last()
}

/// For each node, the nodes that its edges lead to. Edges that leave `nodes`
/// are ignored.
pub fn build_adjacency(nodes: &BTreeSet<u64>, edges: &BTreeSet<(u64, u64)>) -> (adjacency: BTreeMap<
    u64,
    BTreeSet<u64>,
>)
    ensures
        adjacency_edges(adjacency@) == induced(nodes@, edges@),
{
    let mut adjacency: BTreeMap<u64, BTreeSet<u64>> = BTreeMap::new();
    proof {
        lemma_pairs_iter(edges);
    }
    let ghost all = spec_btree_keys_iter(edges).remaining().unref();
    assert(adjacency_edges(adjacency@) == induced(nodes@, all.take(0).to_set()));
    for e in it: edges.iter()
        invariant
            all == it.seq().unref(),
            adjacency_edges(adjacency@) == induced(nodes@, all.take(it.index()).to_set()),
    {
        let (from, to) = *e;
        let ghost before = adjacency@;
        let ghost seen = all.take(it.index());
        proof {
            seen.lemma_push_to_set_commute((from, to));
            assert(all.take(it.index() + 1) == seen.push((from, to)));
        }
        if nodes.contains(&from) && nodes.contains(&to) {
            add_neighbor(&mut adjacency, from, to);
            assert(adjacency_edges(adjacency@) == adjacency_edges(before).insert((from, to)));
        }
        assert(adjacency_edges(adjacency@) == induced(nodes@, seen.push((from, to)).to_set()));
    }
    assert(all.take(all.len() as int) == all);
    adjacency
}

/// Adds one edge to an adjacency map.
pub fn add_neighbor(adjacency: &mut BTreeMap<u64, BTreeSet<u64>>, from: u64, to: u64)
    ensures
        adjacency_edges(final(adjacency)@) == adjacency_edges(old(adjacency)@).insert((from, to)),
{
    let ghost before = adjacency@;
    let mut neighbors: BTreeSet<u64> = match adjacency.remove(&from) {
        Some(neighbors) => neighbors,
        None => BTreeSet::new(),
    };
    neighbors.insert(to);
    adjacency.insert(from, neighbors);
    assert(adjacency_edges(adjacency@) =~= adjacency_edges(before).insert((from, to)));
}

/// Removes one edge from an adjacency map.
pub fn remove_neighbor(adjacency: &mut BTreeMap<u64, BTreeSet<u64>>, from: u64, to: u64)
    ensures
        adjacency_edges(final(adjacency)@) == adjacency_edges(old(adjacency)@).remove((from, to)),
{
    let ghost before = adjacency@;
    if let Some(set) = adjacency.remove(&from) {
        let mut neighbors: BTreeSet<u64> = set;
        neighbors.remove(&to);
        let ghost left = neighbors@;
        if !neighbors.is_empty() {
            adjacency.insert(from, neighbors);
        } else {
            assert(left =~= Set::<u64>::empty());
        }
        assert forall|e: (u64, u64)|
            adjacency_edges(adjacency@).contains(e) <==> adjacency_edges(before).remove(
                (from, to),
            ).contains(e) by {
            if e.0 == from {
                assert(left.contains(e.1) <==> before[from]@.contains(e.1) && e.1 != to);
            }
        }
    }
    assert(adjacency_edges(adjacency@) =~= adjacency_edges(before).remove((from, to)));
}

/// The nodes that the edges of `node` lead to, in ascending order.
pub fn neighbors_of(adjacency: &BTreeMap<u64, BTreeSet<u64>>, node: u64) -> (neighbors: Vec<u64>)
    ensures
        crate::ordered::ascending(neighbors@),
        forall|to: u64|
            #![trigger neighbors@.contains(to)]
            neighbors@.contains(to) <==> adjacency_edges(adjacency@).contains((node, to)),
{
    match adjacency.get(&node) {
        Some(set) => {
            let list = list_ids(set);
            assert forall|to: u64|
                #![trigger list@.contains(to)]
                list@.contains(to) <==> adjacency_edges(adjacency@).contains((node, to)) by {
                assert(list@.contains(to) <==> list@.to_set().contains(to));
            }
            list
        },
        None => Vec::new(),
    }
}

/// The number of 64-bit identifiers that are not in `set`.
pub open spec fn unvisited(set: Set<u64>) -> nat {
    Set::<u64>::full().difference(set).len()
}

/// Visiting a new node leaves fewer to visit.
pub proof fn lemma_unvisited_insert(set: Set<u64>, x: u64)
    requires
        !set.contains(x),
    ensures
        unvisited(set.insert(x)) < unvisited(set),
{
    broadcast use vstd::set_lib::full_set_properties;
    let rest = Set::<u64>::full().difference(set);
    assert(rest.finite()) by {
        vstd::set_lib::lemma_set_subset_finite(Set::<u64>::full(), rest);
    }
    assert(Set::<u64>::full().difference(set.insert(x)) =~= rest.remove(x));
}

/// Whether `target` can be reached from `start`.
pub fn has_path_in_adjacency(
    start: u64,
    target: u64,
    adjacency: &BTreeMap<u64, BTreeSet<u64>>,
) -> (found: bool)
    ensures
        found == reaches(adjacency_edges(adjacency@), start, target),
{
    let ghost edges = adjacency_edges(adjacency@);
    proof {
        lemma_reaches_self(edges, start);
    }
    if start == target {
        return true;
    }
    let mut visited: BTreeSet<u64> = BTreeSet::new();
    let mut stack: Vec<u64> = Vec::new();
    stack.push(start);
    assert(stack@[0] == start);
    while stack.len() > 0
        invariant
            start != target,
            edges == adjacency_edges(adjacency@),
            forall|i: int| 0 <= i < stack@.len() ==> reaches(edges, start, #[trigger] stack@[i]),
            forall|x: u64, y: u64|
                visited@.contains(x) && #[trigger] edges.contains((x, y)) ==> visited@.contains(y)
                    || stack@.contains(y),
            visited@.contains(start) || stack@.contains(start),
            !visited@.contains(target),
            !stack@.contains(target),
        decreases unvisited(visited@), stack.len(),
    {
        let ghost stack_before = stack@;
        let node = stack.pop().unwrap();
        assert(stack_before == stack@.push(node));
        assert(reaches(edges, start, node)) by {
            assert(stack_before[stack_before.len() - 1] == node);
        }
        assert(stack_before.contains(node)) by {
            assert(stack_before[stack_before.len() - 1] == node);
        }
        if visited.contains(&node) {
            continue ;
        }
        let ghost visited_before = visited@;
        proof {
            lemma_unvisited_insert(visited@, node);
        }
        visited.insert(node);
        let neighbors = neighbors_of(adjacency, node);
        let ghost base = stack@;
        let mut i: usize = neighbors.len();
        while i > 0
            invariant
                i <= neighbors@.len(),
                edges == adjacency_edges(adjacency@),
                forall|to: u64|
                    #![trigger neighbors@.contains(to)]
                    neighbors@.contains(to) <==> edges.contains((node, to)),
                reaches(edges, start, node),
                node != target,
                start != target,
                visited@ == visited_before.insert(node),
                !stack@.contains(target),
                base.len() <= stack@.len(),
                stack@.take(base.len() as int) == base,
                forall|k: int| 0 <= k < stack@.len() ==> reaches(edges, start, #[trigger] stack@[k]),
                forall|k: int|
                    i <= k < neighbors@.len() ==> visited@.contains(#[trigger] neighbors@[k])
                        || stack@.contains(neighbors@[k]),
            decreases i,
        {
            i = i - 1;
            let next = neighbors[i];
            assert(neighbors@.contains(next));
            proof {
                lemma_reaches_edge(edges, node, next);
                lemma_reaches_trans(edges, start, node, next);
            }
            if next == target {
                return true;
            }
            if !visited.contains(&next) {
                let ghost s = stack@;
                stack.push(next);
                assert(stack@[s.len() as int] == next);
                assert forall|x: u64| s.contains(x) implies stack@.contains(x) by {
                    let k = choose|k: int| 0 <= k < s.len() && s[k] == x;
                    assert(stack@[k] == x);
                }
                assert(stack@.take(base.len() as int) =~= s.take(base.len() as int));
            }
        }
        assert forall|x: u64| base.contains(x) implies stack@.contains(x) by {
            let k = choose|k: int| 0 <= k < base.len() && base[k] == x;
            assert(stack@.take(base.len() as int)[k] == x);
        }
        assert forall|x: u64, y: u64|
            visited@.contains(x) && #[trigger] edges.contains((x, y)) implies visited@.contains(y)
            || stack@.contains(y) by {
            if x == node {
                assert(neighbors@.contains(y));
            } else if stack_before.contains(y) && y != node {
                let k = choose|k: int| 0 <= k < stack_before.len() && stack_before[k] == y;
                assert(base[k] == y);
            }
        }
        assert(visited@.contains(start) || stack@.contains(start)) by {
            if stack_before.contains(start) && start != node {
                let k = choose|k: int| 0 <= k < stack_before.len() && stack_before[k] == start;
                assert(base[k] == start);
            }
        }
    }
    proof {
        if reaches(edges, start, target) {
            lemma_reaches_closed(edges, visited@, start, target);
        }
    }
    false
}

} // verus!
