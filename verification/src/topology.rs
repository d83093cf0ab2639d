//! Topological orders by Kahn's algorithm, smallest ready node first.

use std::collections::{BTreeMap, BTreeSet};
use vstd::prelude::*;
use vstd::std_specs::btree::spec_btree_keys_iter;
use vstd::std_specs::iter::IteratorSpec;
use crate::graph::{
    acyclic, adjacency_edges, build_adjacency, induced, lemma_reaches_edge, lemma_reaches_self,
    lemma_reaches_trans, neighbors_of, reaches, within,
};
use crate::ordered::{
    ascending, least_id, lemma_ids_finite, lemma_ids_iter, lemma_pairs_iter, list_ids,
};

verus! {

/// `x` has not been taken, and all its predecessors have.
pub open spec fn is_ready(
    nodes: Set<u64>,
    edges: Set<(u64, u64)>,
    taken: Seq<u64>,
    x: u64,
) -> bool {
    &&& nodes.contains(x)
    &&& !taken.contains(x)
    &&& forall|y: u64|
        nodes.contains(y) && #[trigger] edges.contains((y, x)) ==> taken.contains(y)
}

/// `x` is the smallest ready node.
pub open spec fn is_next(nodes: Set<u64>, edges: Set<(u64, u64)>, taken: Seq<u64>, x: u64) -> bool {
    &&& is_ready(nodes, edges, taken, x)
    &&& forall|z: u64| #[trigger] is_ready(nodes, edges, taken, z) ==> x <= z
}

/// `order` takes the smallest ready node again and again, until none is ready.
pub open spec fn is_kahn_order(
    nodes: Set<u64>,
    edges: Set<(u64, u64)>,
    order: Seq<u64>,
) -> bool {
    &&& forall|i: int|
        0 <= i < order.len() ==> #[trigger] is_next(nodes, edges, order.take(i), order[i])
    &&& forall|z: u64| !#[trigger] is_ready(nodes, edges, order, z)
}

/// `order` is the Kahn order of the graph, followed by the nodes that it
/// leaves out in ascending order.
pub open spec fn is_topological_listing(
    nodes: Set<u64>,
    edges: Set<(u64, u64)>,
    order: Seq<u64>,
) -> bool {
    exists|m: int|
        0 <= m <= order.len() && #[trigger] is_kahn_order(nodes, edges, order.take(m)) && ascending(
            order.skip(m),
        ) && order.skip(m).to_set() == nodes.difference(order.take(m).to_set())
}

/// The predecessors of `x` that have not been taken.
spec fn open_predecessors(
    nodes: Set<u64>,
    edges: Set<(u64, u64)>,
    taken: Seq<u64>,
    x: u64,
) -> Set<u64> {
    Set::new(|y: u64| nodes.contains(y) && edges.contains((y, x)) && !taken.contains(y))
}

/// Prefixes of a Kahn order are closed under predecessors and free of repetition.
pub proof fn lemma_kahn_prefix(
    nodes: Set<u64>,
    edges: Set<(u64, u64)>,
    order: Seq<u64>,
)
    requires
        forall|i: int|
            0 <= i < order.len() ==> #[trigger] is_next(nodes, edges, order.take(i), order[i]),
    ensures
        order.no_duplicates(),
        forall|i: int| 0 <= i < order.len() ==> nodes.contains(#[trigger] order[i]),
        forall|x: u64, y: u64|
            order.contains(x) && nodes.contains(y) && #[trigger] edges.contains((y, x))
                ==> order.contains(y),
        forall|i: int, j: int|
            0 <= i < order.len() && 0 <= j < order.len() && #[trigger] edges.contains(
                (order[i], order[j]),
            ) ==> i < j,
{
    assert forall|i: int, j: int| 0 <= i < j < order.len() implies order[i] != order[j] by {
        assert(is_next(nodes, edges, order.take(j), order[j]));
        assert(order.take(j)[i] == order[i]);
    }
    assert forall|i: int| 0 <= i < order.len() implies nodes.contains(#[trigger] order[i]) by {
        assert(is_next(nodes, edges, order.take(i), order[i]));
    }
    assert forall|x: u64, y: u64|
        order.contains(x) && nodes.contains(y) && #[trigger] edges.contains((y, x)) implies order.contains(
        y,
    ) by {
        let j = choose|j: int| 0 <= j < order.len() && order[j] == x;
        assert(is_next(nodes, edges, order.take(j), order[j]));
        assert(order.take(j).contains(y));
        let k = choose|k: int| 0 <= k < j && order.take(j)[k] == y;
        assert(order[k] == y);
    }
    assert forall|i: int, j: int|
        0 <= i < order.len() && 0 <= j < order.len() && #[trigger] edges.contains(
            (order[i], order[j]),
        ) implies i < j by {
        assert(is_next(nodes, edges, order.take(j), order[j]));
        assert(order.take(j).contains(order[i]));
        let k = choose|k: int| 0 <= k < j && order.take(j)[k] == order[i];
        assert(order[k] == order[i]);
    }
}

/// A graph has one Kahn order.
pub proof fn lemma_kahn_order_unique(
    nodes: Set<u64>,
    edges: Set<(u64, u64)>,
    s: Seq<u64>,
    t: Seq<u64>,
)
    requires
        is_kahn_order(nodes, edges, s),
        is_kahn_order(nodes, edges, t),
    ensures
        s == t,
{
    let n = if s.len() <= t.len() {
        s.len() as int
    } else {
        t.len() as int
    };
    lemma_kahn_orders_agree(nodes, edges, s, t, n);
    if s.len() < t.len() {
        assert(is_next(nodes, edges, t.take(n), t[n]));
        assert(s.take(n) =~= s);
    } else if t.len() < s.len() {
        assert(is_next(nodes, edges, s.take(n), s[n]));
        assert(t.take(n) =~= t);
    } else {
        assert(s.take(n) =~= s);
        assert(t.take(n) =~= t);
    }
}

proof fn lemma_kahn_orders_agree(
    nodes: Set<u64>,
    edges: Set<(u64, u64)>,
    s: Seq<u64>,
    t: Seq<u64>,
    n: int,
)
    requires
        is_kahn_order(nodes, edges, s),
        is_kahn_order(nodes, edges, t),
        0 <= n <= s.len(),
        n <= t.len(),
    ensures
        s.take(n) == t.take(n),
    decreases n,
{
    if n > 0 {
        lemma_kahn_orders_agree(nodes, edges, s, t, n - 1);
        assert(is_next(nodes, edges, s.take(n - 1), s[n - 1]));
        assert(is_next(nodes, edges, t.take(n - 1), t[n - 1]));
        assert(s.take(n) =~= s.take(n - 1).push(s[n - 1]));
        assert(t.take(n) =~= t.take(n - 1).push(t[n - 1]));
    } else {
        assert(s.take(0) =~= t.take(0));
    }
}

/// Of the nodes that can come next, the smallest does: a smaller node comes later only if one of
/// those that are listed in between, or the greater one itself, leads to it.
pub proof fn lemma_smallest_comes_first(
    nodes: Set<u64>,
    edges: Set<(u64, u64)>,
    order: Seq<u64>,
    i: int,
    j: int,
)
    requires
        is_kahn_order(nodes, edges, order),
        0 <= i < j < order.len(),
        order[j] < order[i],
    ensures
        exists|k: int| i <= k < j && #[trigger] edges.contains((order[k], order[j])),
{
    let early = order.take(i);
    let late = order.take(j);
    let x = order[j];
    assert(is_next(nodes, edges, early, order[i]));
    assert(is_next(nodes, edges, late, order[j]));
    if forall|k: int| i <= k < j ==> !#[trigger] edges.contains((order[k], order[j])) {
        assert(!early.contains(x)) by {
            if early.contains(x) {
                let k = choose|k: int| 0 <= k < early.len() && early[k] == x;
                assert(late[k] == x);
            }
        }
        assert forall|y: u64| nodes.contains(y) && #[trigger] edges.contains((y, x)) implies early.contains(
        y) by {
            assert(late.contains(y));
            let k = choose|k: int| 0 <= k < late.len() && late[k] == y;
            assert(order[k] == y);
            assert(k < i);
            assert(early[k] == y);
        }
        assert(is_ready(nodes, edges, early, x));
    }
}

/// Every finite graph has a Kahn order.
pub proof fn lemma_kahn_order_exists(nodes: Set<u64>, edges: Set<(u64, u64)>) -> (order: Seq<u64>)
    requires
        nodes.finite(),
    ensures
        is_kahn_order(nodes, edges, order),
{
    lemma_kahn_extend(nodes, edges, Seq::empty())
}

proof fn lemma_kahn_extend(nodes: Set<u64>, edges: Set<(u64, u64)>, taken: Seq<u64>) -> (order: Seq<
    u64,
>)
    requires
        nodes.finite(),
        forall|i: int|
            0 <= i < taken.len() ==> #[trigger] is_next(nodes, edges, taken.take(i), taken[i]),
    ensures
        is_kahn_order(nodes, edges, order),
    decreases nodes.difference(taken.to_set()).len(),
{
    if exists|x: u64| is_ready(nodes, edges, taken, x) {
        let x = choose|x: u64| is_ready(nodes, edges, taken, x);
        let next = lemma_least_ready(nodes, edges, taken, x);
        let more = taken.push(next);
        assert forall|i: int| 0 <= i < more.len() implies #[trigger] is_next(
            nodes,
            edges,
            more.take(i),
            more[i],
        ) by {
            if i < taken.len() {
                assert(more.take(i) =~= taken.take(i));
                assert(is_next(nodes, edges, taken.take(i), taken[i]));
            } else {
                assert(more.take(i) =~= taken);
            }
        }
        taken.lemma_push_to_set_commute(next);
        let rest = nodes.difference(taken.to_set());
        vstd::set_lib::lemma_set_subset_finite(nodes, rest);
        assert(nodes.difference(more.to_set()) =~= rest.remove(next));
        assert(rest.contains(next));
        lemma_kahn_extend(nodes, edges, more)
    } else {
        taken
    }
}

proof fn lemma_least_ready(
    nodes: Set<u64>,
    edges: Set<(u64, u64)>,
    taken: Seq<u64>,
    x: u64,
) -> (next: u64)
    requires
        is_ready(nodes, edges, taken, x),
    ensures
        is_next(nodes, edges, taken, next),
    decreases x,
{
    if exists|y: u64| #[trigger] is_ready(nodes, edges, taken, y) && y < x {
        let y = choose|y: u64| #[trigger] is_ready(nodes, edges, taken, y) && y < x;
        lemma_least_ready(nodes, edges, taken, y)
    } else {
        x
    }
}

/// No edge leads from a member of `set` to `z`.
spec fn is_root(edges: Set<(u64, u64)>, set: Set<u64>, z: u64) -> bool {
    set.contains(z) && forall|y: u64| set.contains(y) ==> !#[trigger] edges.contains((y, z))
}

/// In an acyclic graph a non-empty finite set has a member that no other member leads to.
proof fn lemma_root(edges: Set<(u64, u64)>, set: Set<u64>, x: u64) -> (root: u64)
    requires
        acyclic(edges),
        set.finite(),
        set.contains(x),
    ensures
        is_root(edges, set, root),
    decreases set.filter(|y: u64| reaches(edges, y, x)).len(),
{
    if is_root(edges, set, x) {
        x
    } else {
        let y = choose|y: u64| set.contains(y) && #[trigger] edges.contains((y, x));
        let above_x = set.filter(|z: u64| reaches(edges, z, x));
        let above_y = set.filter(|z: u64| reaches(edges, z, y));
        lemma_reaches_self(edges, x);
        lemma_reaches_edge(edges, y, x);
        assert forall|z: u64| above_y.contains(z) implies above_x.contains(z) by {
            lemma_reaches_trans(edges, z, y, x);
        }
        assert(above_x.contains(x) && !above_y.contains(x));
        vstd::set_lib::lemma_set_subset_finite(set, above_x);
        assert(above_y.subset_of(above_x.remove(x)));
        vstd::set_lib::lemma_len_subset(above_y, above_x.remove(x));
        lemma_root(edges, set, y)
    }
}

/// The Kahn order of an acyclic graph takes every node.
pub proof fn lemma_kahn_order_complete(
    nodes: Set<u64>,
    edges: Set<(u64, u64)>,
    order: Seq<u64>,
)
    requires
        nodes.finite(),
        acyclic(edges),
        is_kahn_order(nodes, edges, order),
    ensures
        order.to_set() == nodes,
{
    lemma_kahn_prefix(nodes, edges, order);
    let left = nodes.difference(order.to_set());
    vstd::set_lib::lemma_set_subset_finite(nodes, left);
    if exists|x: u64| left.contains(x) {
        let x = choose|x: u64| left.contains(x);
        let root = lemma_root(edges, left, x);
        assert(is_ready(nodes, edges, order, root)) by {
            assert forall|y: u64|
                nodes.contains(y) && #[trigger] edges.contains((y, root)) implies order.contains(
                y,
            ) by {
                assert(!left.contains(y));
            }
        }
    }
    assert forall|x: u64| order.to_set().contains(x) <==> nodes.contains(x) by {
        assert(!left.contains(x));
    }
    assert(order.to_set() =~= nodes);
}

/// A topological listing of an acyclic graph holds each node once, and every
/// edge leads from an earlier node to a later one.
pub proof fn lemma_topological_listing(
    nodes: Set<u64>,
    edges: Set<(u64, u64)>,
    order: Seq<u64>,
)
    requires
        nodes.finite(),
        within(nodes, edges),
        acyclic(edges),
        is_topological_listing(nodes, edges, order),
    ensures
        is_kahn_order(nodes, edges, order),
        order.no_duplicates(),
        order.to_set() == nodes,
        forall|i: int, j: int|
            0 <= i < order.len() && 0 <= j < order.len() && #[trigger] edges.contains(
                (order[i], order[j]),
            ) ==> i < j,
{
    let m = choose|m: int|
        0 <= m <= order.len() && #[trigger] is_kahn_order(nodes, edges, order.take(m)) && ascending(
            order.skip(m),
        ) && order.skip(m).to_set() == nodes.difference(order.take(m).to_set());
    lemma_kahn_order_complete(nodes, edges, order.take(m));
    let rest = order.skip(m);
    if rest.len() > 0 {
        assert(rest.to_set().contains(rest[0]));
    }
    assert(order.take(m) =~= order);
    lemma_kahn_prefix(nodes, edges, order);
}

/// An edge leads to the node at position `i` from one at a position of `from..to`.
pub open spec fn is_led_to(
    edges: Set<(u64, u64)>,
    order: Seq<u64>,
    from: int,
    to: int,
    i: int,
) -> bool {
    exists|k: int| from <= k < to && #[trigger] edges.contains((order[k], order[i]))
}

/// Up to `m` every node comes after all of its predecessors, and before those of greater ones that it
/// could come before; from `m` on every node has to wait for another one there, and they ascend.
pub open spec fn splits_at(
    nodes: Set<u64>,
    edges: Set<(u64, u64)>,
    order: Seq<u64>,
    m: int,
) -> bool {
    &&& 0 <= m <= order.len()
    &&& forall|i: int, y: u64|
        0 <= i < m && nodes.contains(y) && #[trigger] edges.contains((y, order[i]))
            ==> order.take(i).contains(y)
    &&& forall|i: int, j: int|
        0 <= i < j < m && order[j] < order[i] ==> #[trigger] is_led_to(edges, order, i, j, j)
    &&& forall|i: int|
        m <= i < order.len() ==> #[trigger] is_led_to(edges, order, m, order.len() as int, i)
    &&& forall|i: int, j: int| m <= i < j < order.len() ==> order[i] < order[j]
}

/// A topological listing of any graph holds each node once. Only what cannot be ordered for a cycle
/// stands at its end, in ascending order.
pub proof fn lemma_any_graph_is_listed(nodes: Set<u64>, edges: Set<(u64, u64)>, order: Seq<u64>)
    requires
        is_topological_listing(nodes, edges, order),
    ensures
        order.no_duplicates(),
        order.to_set() == nodes,
        exists|m: int| #[trigger] splits_at(nodes, edges, order, m),
{
    let m = choose|m: int|
        0 <= m <= order.len() && #[trigger] is_kahn_order(nodes, edges, order.take(m)) && ascending(
            order.skip(m),
        ) && order.skip(m).to_set() == nodes.difference(order.take(m).to_set());
    let head = order.take(m);
    let tail = order.skip(m);
    lemma_kahn_prefix(nodes, edges, head);
    assert forall|i: int| m <= i < order.len() implies tail.to_set().contains(
        #[trigger] order[i],
    ) by {
        assert(tail[i - m] == order[i]);
    }
    assert forall|i: int| 0 <= i < m implies head.to_set().contains(#[trigger] order[i]) by {
        assert(head[i] == order[i]);
    }
    assert forall|i: int, j: int| m <= i < j < order.len() implies order[i] < order[j] by {
        assert(tail[i - m] < tail[j - m]);
    }
    assert forall|i: int, j: int| 0 <= i < j < order.len() implies order[i] != order[j] by {
        if j < m {
            assert(head[i] != head[j]);
        }
    }
    assert forall|x: u64| #[trigger] order.to_set().contains(x) <==> nodes.contains(x) by {
        if nodes.contains(x) {
            if head.contains(x) {
                let i = choose|i: int| 0 <= i < head.len() && head[i] == x;
                assert(order[i] == x);
            } else {
                assert(tail.to_set().contains(x));
                let i = choose|i: int| 0 <= i < tail.len() && tail[i] == x;
                assert(order[i + m] == x);
            }
        }
        if order.to_set().contains(x) {
            let i = choose|i: int| 0 <= i < order.len() && order[i] == x;
            if i < m {
                assert(nodes.contains(head[i]));
            } else {
                assert(tail.to_set().contains(order[i]));
            }
        }
    }
    assert forall|i: int, y: u64|
        0 <= i < m && nodes.contains(y) && #[trigger] edges.contains(
            (y, order[i]),
        ) implies order.take(i).contains(y) by {
        assert(is_next(nodes, edges, head.take(i), head[i]));
        assert(head.take(i) =~= order.take(i));
    }
    assert forall|i: int, j: int|
        0 <= i < j < m && order[j] < order[i] implies #[trigger] is_led_to(edges, order, i, j, j) by {
        lemma_smallest_comes_first(nodes, edges, head, i, j);
        let k = choose|k: int| i <= k < j && #[trigger] edges.contains((head[k], head[j]));
        assert(edges.contains((order[k], order[j])));
    }
    assert forall|i: int| m <= i < order.len() implies #[trigger] is_led_to(
        edges,
        order,
        m,
        order.len() as int,
        i,
    ) by {
        let x = order[i];
        assert(tail.to_set().contains(x));
        assert(!is_ready(nodes, edges, head, x));
        let y = choose|y: u64|
            nodes.contains(y) && #[trigger] edges.contains((y, x)) && !head.contains(y);
        assert(tail.to_set().contains(y));
        let k = choose|k: int| 0 <= k < tail.len() && tail[k] == y;
        assert(order[k + m] == y);
        assert(edges.contains((order[k + m], order[i])));
    }
    assert(splits_at(nodes, edges, order, m));
}

/// The number of edges into each node.
fn count_predecessors(nodes: &BTreeSet<u64>, edges: &BTreeSet<(u64, u64)>) -> (indegree: BTreeMap<
    u64,
    usize,
>)
    ensures
        indegree@.dom() == nodes@,
        forall|x: u64|
            nodes@.contains(x) ==> #[trigger] indegree@[x] == open_predecessors(
                nodes@,
                edges@,
                Seq::empty(),
                x,
            ).len(),
{
    let mut indegree: BTreeMap<u64, usize> = BTreeMap::new();
    proof {
        lemma_ids_iter(nodes);
        lemma_ids_finite(nodes);
        lemma_pairs_iter(edges);
    }
    let ghost all_nodes = spec_btree_keys_iter(nodes).remaining().unref();
    for node in it: nodes.iter()
        invariant
            all_nodes == it.seq().unref(),
            indegree@.dom() == all_nodes.take(it.index()).to_set(),
            forall|x: u64| indegree@.contains_key(x) ==> #[trigger] indegree@[x] == 0,
    {
        let ghost seen = all_nodes.take(it.index());
        proof {
            seen.lemma_push_to_set_commute(*node);
            assert(all_nodes.take(it.index() + 1) =~= seen.push(*node));
        }
        indegree.insert(*node, 0);
        assert(indegree@.dom() =~= seen.push(*node).to_set());
    }
    assert(all_nodes.take(all_nodes.len() as int) =~= all_nodes);
    let ghost all = spec_btree_keys_iter(edges).remaining().unref();
    let ghost none = Seq::<u64>::empty();
    proof {
        assert forall|x: u64| nodes@.contains(x) implies #[trigger] open_predecessors(
            nodes@,
            all.take(0).to_set(),
            none,
            x,
        ).len() == 0 by {
            assert(open_predecessors(nodes@, all.take(0).to_set(), none, x) =~= Set::empty());
        }
    }
    for e in it: edges.iter()
        invariant
            all == it.seq().unref(),
            crate::ordered::ascending_pairs(all),
            none == Seq::<u64>::empty(),
            nodes@.finite(),
            indegree@.dom() == nodes@,
            forall|x: u64|
                nodes@.contains(x) ==> #[trigger] indegree@[x] == open_predecessors(
                    nodes@,
                    all.take(it.index()).to_set(),
                    none,
                    x,
                ).len(),
    {
        let (from, to) = *e;
        let ghost seen = all.take(it.index());
        let ghost before = indegree@;
        proof {
            seen.lemma_push_to_set_commute((from, to));
            assert(all.take(it.index() + 1) =~= seen.push((from, to)));
            assert(all[it.index()] == (from, to));
            assert(!seen.contains((from, to))) by {
                if seen.contains((from, to)) {
                    let k = choose|k: int| 0 <= k < seen.len() && seen[k] == (from, to);
                    assert(crate::ordered::pair_lt(all[k], all[it.index()]));
                }
            }
        }
        if nodes.contains(&from) && nodes.contains(&to) {
            let degree = *indegree.get(&to).unwrap();
            proof {
                let grown = open_predecessors(nodes@, seen.push((from, to)).to_set(), none, to);
                let small = open_predecessors(nodes@, seen.to_set(), none, to);
                assert(grown =~= small.insert(from));
                vstd::set_lib::lemma_set_subset_finite(nodes@, small);
                vstd::set_lib::lemma_len_subset(grown, nodes@);
                assert(nodes.len() == nodes@.len());
            }
            indegree.insert(to, degree + 1);
            assert(indegree@.dom() =~= nodes@);
        }
        proof {
            assert forall|x: u64| nodes@.contains(x) implies #[trigger] indegree@[x]
                == open_predecessors(nodes@, seen.push((from, to)).to_set(), none, x).len() by {
                if x != to || !nodes@.contains(from) {
                    assert(open_predecessors(nodes@, seen.push((from, to)).to_set(), none, x)
                        =~= open_predecessors(nodes@, seen.to_set(), none, x));
                    assert(before[x] == indegree@[x]);
                }
            }
        }
    }
    assert(all.take(all.len() as int) =~= all);
    indegree
}

/// Takes the smallest ready node again and again, until none is ready.
pub fn kahn_order(nodes: &BTreeSet<u64>, edges: &BTreeSet<(u64, u64)>) -> (order: Vec<u64>)
    ensures
        is_kahn_order(nodes@, edges@, order@),
{
    let adjacency = build_adjacency(nodes, edges);
    let mut indegree = count_predecessors(nodes, edges);
    let mut ready: BTreeSet<u64> = BTreeSet::new();
    let mut order: Vec<u64> = Vec::new();
    let ghost all_nodes = spec_btree_keys_iter(nodes).remaining().unref();
    proof {
        lemma_ids_iter(nodes);
        lemma_ids_finite(nodes);
    }
    for node in it: nodes.iter()
        invariant
            all_nodes == it.seq().unref(),
            all_nodes.to_set() == nodes@,
            indegree@.dom() == nodes@,
            nodes@.finite(),
            order@ == Seq::<u64>::empty(),
            forall|x: u64|
                nodes@.contains(x) ==> #[trigger] indegree@[x] == open_predecessors(
                    nodes@,
                    edges@,
                    order@,
                    x,
                ).len(),
            forall|x: u64| #[trigger]
                ready@.contains(x) <==> all_nodes.take(it.index()).contains(x) && is_ready(
                    nodes@,
                    edges@,
                    order@,
                    x,
                ),
    {
        let ghost seen = all_nodes.take(it.index());
        assert(all_nodes[it.index()] == *node);
        assert(all_nodes.to_set().contains(*node));
        proof {
            lemma_ready_iff(nodes@, edges@, order@, *node);
            assert(all_nodes.take(it.index() + 1) =~= seen.push(*node));
            seen.lemma_push_to_set_commute(*node);
            assert forall|x: u64| seen.push(*node).contains(x) <==> seen.contains(x) || x == *node by {
                assert(seen.push(*node).to_set().contains(x) <==> seen.to_set().insert(
                    *node,
                ).contains(x));
            }
        }
        if *indegree.get(node).unwrap() == 0 {
            ready.insert(*node);
        }
    }
    proof {
        assert(all_nodes.take(all_nodes.len() as int) =~= all_nodes);
        assert forall|x: u64| #[trigger] ready@.contains(x) <==> is_ready(nodes@, edges@, order@, x) by {
            assert(all_nodes.contains(x) <==> all_nodes.to_set().contains(x));
        }
    }
    let mut next = least_id(&ready);
    while next.is_some()
        invariant
            adjacency_edges(adjacency@) == induced(nodes@, edges@),
            indegree@.dom() == nodes@,
            nodes@.finite(),
            forall|i: int|
                0 <= i < order@.len() ==> #[trigger] is_next(
                    nodes@,
                    edges@,
                    order@.take(i),
                    order@[i],
                ),
            forall|x: u64|
                nodes@.contains(x) ==> #[trigger] indegree@[x] == open_predecessors(
                    nodes@,
                    edges@,
                    order@,
                    x,
                ).len(),
            forall|x: u64| #[trigger]
                ready@.contains(x) <==> is_ready(nodes@, edges@, order@, x),
            match next {
                Some(x) => ready@.contains(x) && forall|y: u64| ready@.contains(y) ==> x <= y,
                None => ready@ == Set::<u64>::empty(),
            },
        decreases nodes@.difference(order@.to_set()).len(),
    {
        let node = next.unwrap();
        let ghost taken = order@;
        let ghost grown = taken.push(node);
        proof {
            assert(is_ready(nodes@, edges@, taken, node));
            assert forall|z: u64| #[trigger] is_ready(nodes@, edges@, taken, z) implies node <= z by {
                assert(ready@.contains(z));
            }
            assert(is_next(nodes@, edges@, taken, node));
            lemma_kahn_prefix(nodes@, edges@, taken);
            taken.lemma_push_to_set_commute(node);
            let rest = nodes@.difference(taken.to_set());
            vstd::set_lib::lemma_set_subset_finite(nodes@, rest);
            assert(nodes@.difference(grown.to_set()) =~= rest.remove(node));
            assert forall|x: u64| grown.contains(x) <==> taken.contains(x) || x == node by {
                assert(grown.to_set().contains(x) <==> taken.to_set().insert(node).contains(x));
            }
        }
        ready.remove(&node);
        order.push(node);
        let neighbors = neighbors_of(&adjacency, node);
        for i in 0..neighbors.len()
            invariant
                adjacency_edges(adjacency@) == induced(nodes@, edges@),
                forall|to: u64|
                    #![trigger neighbors@.contains(to)]
                    neighbors@.contains(to) <==> induced(nodes@, edges@).contains((node, to)),
                ascending(neighbors@),
                indegree@.dom() == nodes@,
                nodes@.finite(),
                grown == taken.push(node),
                is_ready(nodes@, edges@, taken, node),
                forall|x: u64| grown.contains(x) <==> taken.contains(x) || x == node,
                forall|x: u64, y: u64|
                    taken.contains(x) && nodes@.contains(y) && #[trigger] edges@.contains((y, x))
                        ==> taken.contains(y),
                forall|x: u64|
                    nodes@.contains(x) ==> #[trigger] indegree@[x] == open_predecessors(
                        nodes@,
                        edges@,
                        if neighbors@.take(i as int).contains(x) {
                            grown
                        } else {
                            taken
                        },
                        x,
                    ).len(),
                forall|x: u64| #[trigger]
                    ready@.contains(x) <==> (is_ready(nodes@, edges@, taken, x) && x != node) || (
                    neighbors@.take(i as int).contains(x) && is_ready(nodes@, edges@, grown, x)),
        {
            let to = neighbors[i];
            let ghost seen = neighbors@.take(i as int);
            let ghost before = indegree@;
            proof {
                assert(neighbors@.contains(to));
                assert(!seen.contains(to)) by {
                    if seen.contains(to) {
                        let k = choose|k: int| 0 <= k < seen.len() && seen[k] == to;
                        assert(neighbors@[k] < neighbors@[i as int]);
                    }
                }
                assert(neighbors@.take(i + 1) =~= seen.push(to));
                seen.lemma_push_to_set_commute(to);
                assert forall|x: u64| seen.push(to).contains(x) <==> seen.contains(x) || x == to by {
                    assert(seen.push(to).to_set().contains(x) <==> seen.to_set().insert(
                        to,
                    ).contains(x));
                }
                let wide = open_predecessors(nodes@, edges@, taken, to);
                let narrow = open_predecessors(nodes@, edges@, grown, to);
                vstd::set_lib::lemma_set_subset_finite(nodes@, wide);
                assert(wide.contains(node));
                assert(narrow =~= wide.remove(node));
                lemma_ready_iff(nodes@, edges@, grown, to);
                assert(!grown.contains(to)) by {
                    if taken.contains(to) {
                        assert(taken.contains(node));
                    }
                    if to == node {
                        assert(edges@.contains((node, node)));
                        assert(taken.contains(node));
                    }
                }
            }
            let degree = *indegree.get(&to).unwrap() - 1;
            indegree.insert(to, degree);
            assert(indegree@.dom() =~= nodes@);
            if degree == 0 {
                ready.insert(to);
            }
            proof {
                assert forall|x: u64| nodes@.contains(x) implies #[trigger] indegree@[x]
                    == open_predecessors(
                    nodes@,
                    edges@,
                    if seen.push(to).contains(x) {
                        grown
                    } else {
                        taken
                    },
                    x,
                ).len() by {
                    if x != to {
                        assert(before[x] == indegree@[x]);
                    }
                }
            }
        }
        proof {
            assert(neighbors@.take(neighbors@.len() as int) =~= neighbors@);
            assert forall|x: u64| nodes@.contains(x) implies #[trigger] indegree@[x]
                == open_predecessors(nodes@, edges@, grown, x).len() by {
                if !neighbors@.contains(x) {
                    assert(open_predecessors(nodes@, edges@, grown, x) =~= open_predecessors(
                        nodes@,
                        edges@,
                        taken,
                        x,
                    ));
                }
            }
            assert forall|x: u64| #[trigger] ready@.contains(x) <==> is_ready(
                nodes@,
                edges@,
                grown,
                x,
            ) by {
                if is_ready(nodes@, edges@, grown, x) && !neighbors@.contains(x) {
                    assert(is_ready(nodes@, edges@, taken, x));
                }
                if is_ready(nodes@, edges@, taken, x) && x != node {
                    assert(is_ready(nodes@, edges@, grown, x));
                }
            }
            assert forall|i: int| 0 <= i < grown.len() implies #[trigger] is_next(
                nodes@,
                edges@,
                grown.take(i),
                grown[i],
            ) by {
                if i < taken.len() {
                    assert(grown.take(i) =~= taken.take(i));
                    assert(is_next(nodes@, edges@, taken.take(i), taken[i]));
                } else {
                    assert(grown.take(i) =~= taken);
                }
            }
        }
        next = least_id(&ready);
    }
    assert forall|z: u64| !#[trigger] is_ready(nodes@, edges@, order@, z) by {
        assert(!ready@.contains(z));
    }
    order
}

/// A node is ready when it has not been taken and no predecessor is open.
proof fn lemma_ready_iff(nodes: Set<u64>, edges: Set<(u64, u64)>, taken: Seq<u64>, x: u64)
    requires
        nodes.finite(),
    ensures
        is_ready(nodes, edges, taken, x) <==> nodes.contains(x) && !taken.contains(x)
            && open_predecessors(nodes, edges, taken, x).len() == 0,
{
    let open = open_predecessors(nodes, edges, taken, x);
    vstd::set_lib::lemma_set_subset_finite(nodes, open);
    if open.len() == 0 {
        assert(open =~= Set::empty());
        assert forall|y: u64|
            nodes.contains(y) && #[trigger] edges.contains((y, x)) implies taken.contains(y) by {
            assert(!open.contains(y));
        }
    }
    if is_ready(nodes, edges, taken, x) {
        assert(open =~= Set::empty());
    }
}

/// All nodes, in Kahn order as far as it goes, then in ascending order.
pub fn topological_sort(nodes: &BTreeSet<u64>, edges: &BTreeSet<(u64, u64)>) -> (order: Vec<u64>)
    ensures
        is_topological_listing(nodes@, edges@, order@),
{
    let mut order = kahn_order(nodes, edges);
    let ghost taken = order@;
    let mut leftovers: BTreeSet<u64> = nodes.clone();
    for i in 0..order.len()
        invariant
            leftovers@ == nodes@.difference(order@.take(i as int).to_set()),
    {
        let ghost seen = order@.take(i as int);
        proof {
            seen.lemma_push_to_set_commute(order@[i as int]);
            assert(order@.take(i + 1) =~= seen.push(order@[i as int]));
        }
        leftovers.remove(&order[i]);
        assert(leftovers@ =~= nodes@.difference(seen.push(order@[i as int]).to_set()));
    }
    let mut rest = list_ids(&leftovers);
    let ghost tail = rest@;
    order.append(&mut rest);
    proof {
        assert(taken.take(taken.len() as int) =~= taken);
        assert(order@.take(taken.len() as int) =~= taken);
        assert(order@.skip(taken.len() as int) =~= tail);
        assert(is_kahn_order(nodes@, edges@, order@.take(taken.len() as int)));
    }
    order
}

} // verus!
